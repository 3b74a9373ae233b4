//! The limits of one search, as the protocol hands them over.
use vstd::prelude::*;

verus! {

/// What a `go` command asks for.
#[derive(Debug)]
pub struct GoParams {
    pub depth: Option<i32>,
    pub mate: Option<i32>,
    pub nodes: Option<i32>,
    pub movetime: Option<i64>,
    pub wtime: Option<i64>,
    pub btime: Option<i64>,
    pub winc: Option<i64>,
    pub binc: Option<i64>,
    pub movestogo: Option<i32>,
    pub infinite: bool,
    pub ponder: bool,
    /// The moves to which the search is restricted, as text.
    pub searchmoves: Vec<String>,
}

impl Default for GoParams {
    fn default() -> (r: Self)
        ensures
            r.depth is None && r.mate is None && r.nodes is None && r.movetime is None,
            r.wtime is None && r.btime is None && r.winc is None && r.binc is None,
            r.movestogo is None && !r.infinite && !r.ponder,
            r.searchmoves@.len() == 0,
    {
        GoParams {
            depth: None,
            mate: None,
            nodes: None,
            movetime: None,
            wtime: None,
            btime: None,
            winc: None,
            binc: None,
            movestogo: None,
            infinite: false,
            ponder: false,
            searchmoves: Vec::new(),
        }
    }
}

impl GoParams {
    /// Whether any of the clock fields is given.
    pub open spec fn has_clock(self) -> bool {
        self.wtime is Some || self.btime is Some || self.winc is Some || self.binc is Some
            || self.movestogo is Some
    }

    /// The time on the clock of one side.
    pub open spec fn side_time(self, black_to_move: bool) -> Option<i64> {
        if black_to_move {
            self.btime
        } else {
            self.wtime
        }
    }
}

} // verus!
