//! What goes out of a tree search: the best move and the lines of its report.
use vstd::prelude::*;

use crate::classic::search::{
    mate_distance, mate_of, wdl_from_wl_d, wdl_of, ThinkingInfo, Wdl,
};
use crate::position::{copy_moves, Move};
use crate::scalar::Scalar;

verus! {

/// What is shown of a line's value: the score, and the value and draw share after they
/// have been rescaled.
#[derive(Clone, Copy, Debug)]
pub struct ShownValue<S> {
    pub score: i32,
    pub wl: S,
    pub d: S,
}

/// One line of a report, as it goes out.
#[derive(Debug)]
pub struct OutputLine {
    pub depth: u64,
    pub seldepth: u16,
    pub time: i64,
    pub nodes: u64,
    pub nps: Option<u64>,
    pub eps: Option<u64>,
    /// The distance to mate, where the line ends in one.
    pub mate: Option<i32>,
    /// The score of a line without a mate.
    pub score: Option<i32>,
    pub wdl: Wdl,
    pub pv: Vec<Move>,
    pub multipv: Option<usize>,
}

/// The answer of a search with the lines that led to it.
#[derive(Debug)]
pub struct SearchOutput {
    pub best_move: Move,
    pub ponder: Move,
    pub infos: Vec<OutputLine>,
}

/// A line goes out with its counters and moves, with the chances that are shown, and with
/// either a mate or a score.
pub open spec fn is_output_line<S: Scalar>(
    out: OutputLine,
    line: ThinkingInfo<S>,
    shown: ShownValue<S>,
) -> bool {
    &&& (out.depth, out.seldepth, out.time, out.nodes) == (
        line.depth,
        line.seldepth,
        line.time,
        line.nodes,
    )
    &&& (out.nps, out.eps, out.multipv) == (line.nps, line.eps, line.multipv)
    &&& out.pv@ == line.pv@
    &&& out.mate == mate_of(line.ends_after, shown.wl)
    &&& out.score == (if out.mate is None {
        Some(shown.score)
    } else {
        None
    })
    &&& out.wdl == wdl_of(shown.wl, shown.d)
}

/// Puts the best move and the lines of a report together, given what is shown of each
/// line's value. Without a best move nothing goes out.
pub fn snapshot_output<S: Scalar>(
    best_move: Move,
    ponder: Move,
    lines: &Vec<ThinkingInfo<S>>,
    shown: &Vec<ShownValue<S>>,
) -> (r: Option<SearchOutput>)
    requires
        shown@.len() == lines@.len(),
        forall|k: int|
            0 <= k < lines@.len() ==> ((#[trigger] lines@[k]).ends_after matches Some(moves)
                ==> moves > i32::MIN),
    ensures
        r is None == best_move.spec_is_null(),
        r matches Some(output) ==> {
            &&& output.best_move == best_move
            &&& output.ponder == ponder
            &&& output.infos@.len() == lines@.len()
            &&& forall|k: int|
                0 <= k < lines@.len() ==> is_output_line(
                    #[trigger] output.infos@[k],
                    lines@[k],
                    shown@[k],
                )
            &&& forall|k: int|
                0 <= k < output.infos@.len() ==> (#[trigger] output.infos@[k]).score is Some
                    == output.infos@[k].mate is None
        },
{
    if best_move.is_null() {
        return None;
    }
    let mut infos: Vec<OutputLine> = Vec::new();
    let mut k: usize = 0;
    while k < lines.len()
        invariant
            shown@.len() == lines@.len(),
            forall|j: int|
                0 <= j < lines@.len() ==> ((#[trigger] lines@[j]).ends_after matches Some(moves)
                    ==> moves > i32::MIN),
            k <= lines@.len(),
            infos@.len() == k,
            forall|j: int|
                0 <= j < k ==> is_output_line(#[trigger] infos@[j], lines@[j], shown@[j]),
        decreases lines@.len() - k,
    {
        let line: &ThinkingInfo<S> = &lines[k];
        let value: ShownValue<S> = shown[k];
        let mate: Option<i32> = mate_distance(line.ends_after, value.wl);
        let out: OutputLine = OutputLine {
            depth: line.depth,
            seldepth: line.seldepth,
            time: line.time,
            nodes: line.nodes,
            nps: line.nps,
            eps: line.eps,
            mate,
            score: if mate.is_none() {
                Some(value.score)
            } else {
                None
            },
            wdl: wdl_from_wl_d(value.wl, value.d),
            pv: copy_moves(&line.pv),
            multipv: line.multipv,
        };
        infos.push(out);
        k += 1;
    }
    Some(SearchOutput { best_move, ponder, infos })
}

} // verus!
