//! What a search is asked for, and why it may be refused.
use vstd::prelude::*;

use crate::error::EnginError;
use crate::go_params::GoParams;

verus! {

/// Whether a clock value is given and negative.
pub open spec fn is_negative(value: Option<i64>) -> bool {
    value is Some && value->Some_0 < 0
}

fn is_below_zero(value: Option<i64>) -> (r: bool)
    ensures
        r == is_negative(value),
{
    match value {
        Some(value) => value < 0,
        None => false,
    }
}

/// Why a command is refused, if it is. `black_to_move` is known once there is a position.
pub open spec fn go_fault(black_to_move: Option<bool>, go: GoParams) -> Option<EnginError> {
    if go.depth is Some {
        Some(EnginError::Unsupported("go depth is not supported"))
    } else if go.mate is Some {
        Some(EnginError::Unsupported("go mate is not supported"))
    } else if go.nodes is Some && go.nodes->Some_0 <= 0 {
        Some(EnginError::Uci("go nodes must be positive"))
    } else if is_negative(go.movetime) {
        Some(EnginError::Uci("go movetime must not be negative"))
    } else if is_negative(go.wtime) || is_negative(go.btime) || is_negative(go.winc)
        || is_negative(go.binc) || (go.movestogo is Some && go.movestogo->Some_0 <= 0) {
        Some(EnginError::Uci("go clock values must be non-negative and movestogo positive"))
    } else if go.has_clock() && black_to_move is None {
        Some(EnginError::Uci("position is not configured"))
    } else if go.has_clock() && go.side_time(black_to_move->Some_0) is None {
        Some(EnginError::Uci("go clock is missing side-to-move time"))
    } else if go.movetime is Some && go.has_clock() {
        Some(EnginError::Uci("go movetime cannot be combined with clock fields"))
    } else if go.infinite && (go.nodes is Some || go.movetime is Some || go.has_clock()) {
        Some(
            EnginError::Uci("go infinite cannot be combined with nodes, movetime, or clock fields"),
        )
    } else if !go.infinite && go.nodes is None && go.movetime is None && !go.has_clock() {
        Some(EnginError::Uci("go requires nodes, movetime, clock fields, or infinite"))
    } else {
        None
    }
}

/// Says why a command is refused, if it is.
pub fn validate_go(black_to_move: Option<bool>, go: &GoParams) -> (r: Result<(), EnginError>)
    ensures
        r is Ok == go_fault(black_to_move, *go) is None,
        r matches Err(error) ==> Some(error) == go_fault(black_to_move, *go),
{
    if go.depth.is_some() {
        return Err(EnginError::Unsupported("go depth is not supported"));
    }
    if go.mate.is_some() {
        return Err(EnginError::Unsupported("go mate is not supported"));
    }
    match go.nodes {
        Some(nodes) => {
            if nodes <= 0 {
                return Err(EnginError::Uci("go nodes must be positive"));
            }
        },
        None => {},
    }
    if is_below_zero(go.movetime) {
        return Err(EnginError::Uci("go movetime must not be negative"));
    }
    let few_moves: bool = match go.movestogo {
        Some(moves) => moves <= 0,
        None => false,
    };
    if is_below_zero(go.wtime) || is_below_zero(go.btime) || is_below_zero(go.winc)
        || is_below_zero(go.binc) || few_moves {
        return Err(
            EnginError::Uci("go clock values must be non-negative and movestogo positive"),
        );
    }
    let has_clock: bool = go.wtime.is_some() || go.btime.is_some() || go.winc.is_some()
        || go.binc.is_some() || go.movestogo.is_some();
    if has_clock {
        match black_to_move {
            None => {
                return Err(EnginError::Uci("position is not configured"));
            },
            Some(black) => {
                let side: Option<i64> = if black {
                    go.btime
                } else {
                    go.wtime
                };
                if side.is_none() {
                    return Err(EnginError::Uci("go clock is missing side-to-move time"));
                }
            },
        }
    }
    if go.movetime.is_some() && has_clock {
        return Err(EnginError::Uci("go movetime cannot be combined with clock fields"));
    }
    if go.infinite && (go.nodes.is_some() || go.movetime.is_some() || has_clock) {
        return Err(
            EnginError::Uci("go infinite cannot be combined with nodes, movetime, or clock fields"),
        );
    }
    if !go.infinite && go.nodes.is_none() && go.movetime.is_none() && !has_clock {
        return Err(EnginError::Uci("go requires nodes, movetime, clock fields, or infinite"));
    }
    Ok(())
}

/// The limits of a search: its visits, and its deadline by a clock in milliseconds.
#[derive(Clone, Copy, Debug, PartialEq, Eq, Structural)]
pub struct GoLimits {
    pub max_playouts: Option<u64>,
    pub deadline_ms: Option<i64>,
}

/// The limits that a valid command sets. A time for the move comes before what the clock
/// allows.
pub fn limits_of(go: &GoParams, started_ms: i64, clock_deadline_ms: Option<i64>) -> (r: GoLimits)
    requires
        go_fault(Some(true), *go) is None || go_fault(Some(false), *go) is None || go_fault(
            None,
            *go,
        ) is None,
        go.movetime matches Some(movetime) ==> started_ms + movetime <= i64::MAX,
    ensures
        r.max_playouts is Some == go.nodes is Some,
        r.max_playouts matches Some(most) ==> most == go.nodes->Some_0,
        r.deadline_ms == (match go.movetime {
            Some(movetime) => Some((started_ms + movetime) as i64),
            None => clock_deadline_ms,
        }),
{
    let max_playouts: Option<u64> = match go.nodes {
        Some(nodes) => Some(nodes as u64),
        None => None,
    };
    let deadline_ms: Option<i64> = match go.movetime {
        Some(movetime) => Some(started_ms + movetime),
        None => clock_deadline_ms,
    };
    GoLimits { max_playouts, deadline_ms }
}

/// A command that is not refused says when the search ends, or that it does not.
pub proof fn law_accepted_commands_end(black_to_move: Option<bool>, go: GoParams)
    requires
        go_fault(black_to_move, go) is None,
    ensures
        go.infinite != (go.nodes is Some || go.movetime is Some || go.has_clock()),
        go.has_clock() ==> black_to_move is Some && go.side_time(black_to_move->Some_0) is Some,
{
}

} // verus!
