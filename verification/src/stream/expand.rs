//! What a leaf turns out to be: a finished game, or a position to evaluate.
use vstd::prelude::*;

use crate::position::GameResult;
use crate::scalar::Scalar;

verus! {

/// What is to be done with a leaf.
#[derive(Clone, Copy, Debug)]
pub enum ExpandKind<S> {
    /// The network evaluates the position and its legal moves become edges.
    Evaluate,
    /// The game is over, seen by the side that moved in.
    Terminal { wl: S, draw: S, plies_left: S },
}

/// The value and the draw share of a result, seen by the side that moved into a position
/// with the given side to move.
pub open spec fn result_for_node<S: Scalar>(result: GameResult, black_to_move: bool) -> (S, S) {
    let one = S::spec_one();
    let zero = S::spec_zero();
    match result {
        GameResult::Draw => (zero.spec_negated(), one),
        GameResult::WhiteWon => (
            (if black_to_move {
                one.spec_negated()
            } else {
                one
            }).spec_negated(),
            zero,
        ),
        GameResult::BlackWon => (
            (if black_to_move {
                one
            } else {
                one.spec_negated()
            }).spec_negated(),
            zero,
        ),
        GameResult::Undecided => (zero, zero),
    }
}

/// The value and the draw share of a result, seen by the side that moved in.
pub fn terminal_wl_for_node<S: Scalar>(result: GameResult, black_to_move: bool) -> (r: (S, S))
    requires
        result != GameResult::Undecided,
    ensures
        r == result_for_node::<S>(result, black_to_move),
{
    match result {
        GameResult::Draw => (S::zero().negated(), S::one()),
        GameResult::WhiteWon => {
            let stm: S = if black_to_move {
                S::one().negated()
            } else {
                S::one()
            };
            (stm.negated(), S::zero())
        },
        GameResult::BlackWon => {
            let stm: S = if black_to_move {
                S::one()
            } else {
                S::one().negated()
            };
            (stm.negated(), S::zero())
        },
        GameResult::Undecided => (S::zero(), S::zero()),
    }
}

/// The result of a game for the side that moved in, if the game is over.
pub open spec fn spec_terminal_value<S: Scalar>(
    result: GameResult,
    black_to_move: bool,
) -> Option<(S, S, S)> {
    if result == GameResult::Undecided {
        None
    } else {
        let (wl, draw) = result_for_node::<S>(result, black_to_move);
        Some((wl, draw, S::spec_zero()))
    }
}

/// The result of a game for the side that moved in, if the game is over.
pub fn game_terminal_value<S: Scalar>(result: GameResult, black_to_move: bool) -> (r: Option<
    (S, S, S),
>)
    ensures
        r == spec_terminal_value::<S>(result, black_to_move),
{
    if result == GameResult::Undecided {
        return None;
    }
    let (wl, draw) = terminal_wl_for_node::<S>(result, black_to_move);
    Some((wl, draw, S::zero()))
}

/// What is to be done with a leaf whose game has this result.
pub fn classify_expand<S: Scalar>(result: GameResult, black_to_move: bool) -> (r: ExpandKind<S>)
    ensures
        r == (match spec_terminal_value::<S>(result, black_to_move) {
            Some((wl, draw, plies_left)) => ExpandKind::Terminal { wl, draw, plies_left },
            None => ExpandKind::Evaluate,
        }),
{
    match game_terminal_value::<S>(result, black_to_move) {
        Some((wl, draw, plies_left)) => ExpandKind::Terminal { wl, draw, plies_left },
        None => ExpandKind::Evaluate,
    }
}

/// A side that has been beaten is to move where the other side has just moved in, so
/// that a lost position counts as won for the side that moved in.
pub proof fn law_beaten_side_to_move_is_a_win<S: Scalar>(black_to_move: bool)
    ensures
        ({
            let result = if black_to_move {
                GameResult::WhiteWon
            } else {
                GameResult::BlackWon
            };
            result_for_node::<S>(result, black_to_move) == (
                S::spec_one().spec_negated().spec_negated(),
                S::spec_zero(),
            )
        }),
{
}

} // verus!
