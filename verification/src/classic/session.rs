//! A tree search from its start to its answer: what is refused, what is counted,
//! when it stops and when it reports.
use vstd::prelude::*;

use crate::classic::backup::{
    cancel_shared_collisions, collisions_load, only_in_flight, WorkerSearchState,
};
use crate::classic::params::{ContemptMode, ScoreType, SearchParams, Weights};
use crate::classic::search::{resolve_contempt_mode, settled_contempt};
use crate::classic::tree::{can_reopen_along, is_ancestor, NodeTree};
use crate::error::EnginError;
use crate::go_params::GoParams;
use crate::position::{contains_move, Move, Position};
use crate::scalar::Scalar;
use crate::stoppers::legacy::{clocked, LegacyTimeManager, LegacyWeights};
use crate::stoppers::stopper::{
    build_search_stoppers, command_stoppers, command_wants_stop, law_own_conditions_stay,
    ChainedSearchStopper, SearchStopper, TimeLimitStopper,
};
use crate::stoppers::timemgr::{IterationStats, StoppersHints};

verus! {

/// When a search began, by a clock in milliseconds, and what it found.
#[derive(Clone, Copy, Debug, PartialEq, Eq, Structural)]
pub struct SearchClock {
    pub move_start_ms: i64,
    /// When the first playout had completed.
    pub nps_start_ms: Option<i64>,
    /// The visits of the root when the search began.
    pub initial_visits: u32,
}

impl SearchClock {
    /// Whether the clock has not gone back.
    pub open spec fn can_read(self, now_ms: i64) -> bool {
        &&& 0 <= self.move_start_ms <= now_ms
        &&& (self.nps_start_ms matches Some(start) ==> 0 <= start <= now_ms)
    }

    /// How far a search has come.
    pub open spec fn stats(self, worker: WorkerSearchState, now_ms: i64) -> IterationStats {
        IterationStats {
            time_since_movestart: (now_ms - self.move_start_ms) as i64,
            time_since_first_batch: match self.nps_start_ms {
                Some(start) => (now_ms - start) as i64,
                None => 0,
            },
            total_nodes: (worker.total_playouts + self.initial_visits) as i64,
            nodes_since_movestart: worker.total_playouts as i64,
            batches_since_movestart: worker.total_batches as i64,
            average_depth: if worker.total_playouts == 0 {
                0
            } else {
                (worker.cum_depth / worker.total_playouts) as i32
            },
        }
    }

    /// The clock once the statistics have been read: the time of the first playout
    /// begins with the first reading that sees one.
    pub open spec fn after_reading(self, worker: WorkerSearchState, now_ms: i64) -> SearchClock {
        SearchClock {
            nps_start_ms: if self.nps_start_ms is None && worker.total_playouts > 0 {
                Some(now_ms)
            } else {
                self.nps_start_ms
            },
            ..self
        }
    }

    /// Says how far a search has come. Visits that the root had before count as
    /// nodes, but not as nodes of this search.
    pub fn populate_iteration_stats(
        &mut self,
        worker: &WorkerSearchState,
        now_ms: i64,
    ) -> (r: IterationStats)
        requires
            old(self).can_read(now_ms),
            worker.total_playouts + old(self).initial_visits <= i64::MAX,
            worker.total_batches <= i64::MAX,
        ensures
            r == old(self).stats(*worker, now_ms),
            *final(self) == old(self).after_reading(*worker, now_ms),
            final(self).can_read(now_ms),
    {
        let time_since_first_batch: i64 = match self.nps_start_ms {
            Some(start) => now_ms - start,
            None => 0,
        };
        if self.nps_start_ms.is_none() && worker.total_playouts > 0 {
            self.nps_start_ms = Some(now_ms);
        }
        IterationStats {
            time_since_movestart: now_ms - self.move_start_ms,
            time_since_first_batch,
            total_nodes: (worker.total_playouts + self.initial_visits as u64) as i64,
            nodes_since_movestart: worker.total_playouts as i64,
            batches_since_movestart: worker.total_batches as i64,
            average_depth: if worker.total_playouts == 0 {
                0
            } else {
                #[verifier::truncate]
                ((worker.cum_depth / worker.total_playouts) as i32)
            },
        }
    }

    /// The time since the first playout, or since the start before there is one.
    pub fn nps_elapsed_or_move_start_ms(&self, now_ms: i64) -> (r: i64)
        requires
            self.can_read(now_ms),
        ensures
            r == now_ms - (match self.nps_start_ms {
                Some(start) => start,
                None => self.move_start_ms,
            }),
    {
        match self.nps_start_ms {
            Some(start) => now_ms - start,
            None => now_ms - self.move_start_ms,
        }
    }
}

/// The last report that went out while a search ran.
#[derive(Clone, Copy, Debug, PartialEq, Eq, Structural)]
pub struct LiveInfoState {
    pub edge: Option<usize>,
    pub depth: i32,
    pub seldepth: i32,
    pub time: i64,
}

impl Default for LiveInfoState {
    fn default() -> (r: Self)
        ensures
            r == (LiveInfoState { edge: None, depth: 0, seldepth: 0, time: 0 }),
    {
        LiveInfoState { edge: None, depth: 0, seldepth: 0, time: 0 }
    }
}

/// What the watchdog does with a report.
#[derive(Clone, Copy, Debug, PartialEq, Eq, Structural)]
pub enum InfoOutput {
    /// Nothing changed enough.
    Quiet,
    /// The report goes out.
    Report,
    /// The report goes out, with a warning that the search cannot go on and may not
    /// answer yet.
    ReportAndWarn,
}

/// The warning that goes with `InfoOutput::ReportAndWarn`.
pub fn limit_warning() -> (r: &'static str)
    ensures
        r@ == "WARNING: Search has reached limit and does not make any progress."@,
{
    "WARNING: Search has reached limit and does not make any progress."
}

/// The warning of a search whose contempt cannot be settled.
pub fn contempt_warning() -> (r: &'static str)
    ensures
        r@
            == "WARNING: Contempt mode set to 'disable' as 'play' not supported for infinite search."@,
{
    "WARNING: Contempt mode set to 'disable' as 'play' not supported for infinite search."
}

/// The requested moves that are legal, in the order of the requests.
pub open spec fn legal_requests(parsed: Seq<Option<Move>>, legal: Seq<Move>, k: int) -> Seq<Move>
    decreases k,
{
    if k <= 0 {
        Seq::empty()
    } else {
        let before = legal_requests(parsed, legal, k - 1);
        match parsed[k - 1] {
            Some(mv) => if legal.contains(mv) {
                before.push(mv)
            } else {
                before
            },
            None => before,
        }
    }
}

/// The requested moves that are legal, in the order of the requests.
pub fn legal_search_moves(parsed: &Vec<Option<Move>>, legal: &Vec<Move>) -> (r: Vec<Move>)
    ensures
        r@ == legal_requests(parsed@, legal@, parsed@.len() as int),
{
    let mut filter: Vec<Move> = Vec::new();
    let mut k: usize = 0;
    while k < parsed.len()
        invariant
            k <= parsed@.len(),
            filter@ == legal_requests(parsed@, legal@, k as int),
        decreases parsed@.len() - k,
    {
        match parsed[k] {
            Some(mv) => {
                if contains_move(legal, mv) {
                    filter.push(mv);
                }
            },
            None => {},
        }
        k += 1;
    }
    filter
}

/// A restricted search only ever considers moves that were asked for and are legal.
pub proof fn law_filter_is_legal(parsed: Seq<Option<Move>>, legal: Seq<Move>, k: int, mv: Move)
    requires
        0 <= k <= parsed.len(),
    ensures
        legal_requests(parsed, legal, k).contains(mv) <==> legal.contains(mv) && parsed.take(
            k,
        ).contains(Some(mv)),
    decreases k,
{
    if k > 0 {
        law_filter_is_legal(parsed, legal, k - 1, mv);
        let before = legal_requests(parsed, legal, k - 1);
        let shorter = parsed.take(k - 1);
        let longer = parsed.take(k);
        assert(longer =~= shorter.push(parsed[k - 1]));
        if shorter.contains(Some(mv)) {
            let i = choose|i: int| 0 <= i < shorter.len() && shorter[i] == Some(mv);
            assert(longer[i] == Some(mv));
        }
        if longer.contains(Some(mv)) && parsed[k - 1] != Some(mv) {
            let i = choose|i: int| 0 <= i < longer.len() && longer[i] == Some(mv);
            assert(shorter[i] == Some(mv));
        }
        if parsed[k - 1] == Some(mv) {
            assert(longer[k - 1] == Some(mv));
        }
        if parsed[k - 1] matches Some(other) && legal.contains(other) {
            let all = before.push(parsed[k - 1]->Some_0);
            if before.contains(mv) {
                let i = choose|i: int| 0 <= i < before.len() && before[i] == mv;
                assert(all[i] == mv);
            }
            if all.contains(mv) && parsed[k - 1] != Some(mv) {
                let i = choose|i: int| 0 <= i < all.len() && all[i] == mv;
                assert(before[i] == mv);
            }
            if parsed[k - 1] == Some(mv) {
                assert(all[before.len() as int] == mv);
            }
        }
    } else {
        assert(parsed.take(0) =~= Seq::empty());
    }
}

/// Why a command is refused, if it is.
pub open spec fn start_refusal(
    go: GoParams,
    black_to_move: bool,
    parsed: Seq<Option<Move>>,
    legal: Seq<Move>,
) -> Option<EnginError> {
    if go.depth is Some || go.mate is Some {
        Some(EnginError::Unsupported("go depth/go mate stopper"))
    } else if go.nodes matches Some(nodes) && nodes <= 0 {
        Some(EnginError::Uci("go nodes must be positive"))
    } else if go.movetime matches Some(movetime) && movetime < 0 {
        Some(EnginError::Uci("go movetime must be non-negative"))
    } else if go.nodes is None && go.movetime is None && go.side_time(black_to_move) is None
        && !go.infinite {
        Some(EnginError::Unsupported("time-based search stopper"))
    } else if parsed.len() > 0 && legal_requests(parsed, legal, parsed.len() as int).len() == 0 {
        Some(EnginError::Uci("No legal searchmoves."))
    } else {
        None
    }
}

/// What the board says at the start of a search.
#[derive(Debug)]
pub struct StartPosition<S> {
    pub black_to_move: bool,
    pub game_ply: u32,
    pub legal_moves: Vec<Move>,
    /// The moves that the command names, each where its text could be read.
    pub requested: Vec<Option<Move>>,
    /// How many moves the game is expected to last.
    pub estimated_moves: S,
    pub now_ms: i64,
}

/// Says why a command is refused, if it is.
pub fn start_error<S>(go: &GoParams, start: &StartPosition<S>) -> (r: Option<EnginError>)
    ensures
        r == start_refusal(*go, start.black_to_move, start.requested@, start.legal_moves@),
{
    if go.depth.is_some() || go.mate.is_some() {
        return Some(EnginError::Unsupported("go depth/go mate stopper"));
    }
    match go.nodes {
        Some(nodes) => {
            if nodes <= 0 {
                return Some(EnginError::Uci("go nodes must be positive"));
            }
        },
        None => {},
    }
    match go.movetime {
        Some(movetime) => {
            if movetime < 0 {
                return Some(EnginError::Uci("go movetime must be non-negative"));
            }
        },
        None => {},
    }
    let has_clock: bool = if start.black_to_move {
        go.btime.is_some()
    } else {
        go.wtime.is_some()
    };
    if !(go.nodes.is_some() || go.movetime.is_some() || has_clock || go.infinite) {
        return Some(EnginError::Unsupported("time-based search stopper"));
    }
    if !start.requested.is_empty() && legal_search_moves(
        &start.requested,
        &start.legal_moves,
    ).is_empty() {
        return Some(EnginError::Uci("No legal searchmoves."));
    }
    None
}

/// Whether two chains hold the same conditions in the same order.
pub open spec fn same_chain(
    a: Option<ChainedSearchStopper<TimeLimitStopper>>,
    b: Option<ChainedSearchStopper<TimeLimitStopper>>,
) -> bool {
    match (a, b) {
        (Some(a), Some(b)) => a.stoppers@ == b.stoppers@,
        (None, None) => true,
        _ => false,
    }
}

/// A tree search, apart from its threads.
#[derive(Debug)]
pub struct ClassicSearch<S> {
    pub tree: NodeTree<S>,
    pub worker: WorkerSearchState,
    pub params: SearchParams<S>,
    pub clock: SearchClock,
    pub root_move_filter: Vec<Move>,
    /// The side for which draws are valued differently, settled at the start.
    pub contempt_mode: ContemptMode,
    pub stopper: Option<ChainedSearchStopper<TimeLimitStopper>>,
    /// The time that the present time manager gave this search.
    pub planned: Option<TimeLimitStopper>,
    pub ok_to_respond_bestmove: bool,
    pub bestmove_is_sent: bool,
    pub live_info: LiveInfoState,
    pub infinite: bool,
    pub time_manager: LegacyTimeManager<S>,
    /// The overhead for the next game.
    pub move_overhead_ms: i64,
    /// The pace for the next game.
    pub slowmover: S,
}

impl<S: Scalar> ClassicSearch<S> {
    /// A search without a position.
    pub fn new(params: SearchParams<S>) -> (r: Self)
        ensures
            r.tree.wf(),
            r.tree.nodes().len() == 0 && r.tree.history@.len() == 0,
            r.tree.gamebegin is None && r.tree.current_head is None,
            r.worker.is_initial(false),
            r.params == params,
            r.clock == (SearchClock { move_start_ms: 0, nps_start_ms: None, initial_visits: 0 }),
            r.root_move_filter@.len() == 0,
            r.contempt_mode == ContemptMode::Disable,
            r.stopper is None && r.planned is None,
            r.ok_to_respond_bestmove && !r.bestmove_is_sent && !r.infinite,
            r.live_info == (LiveInfoState { edge: None, depth: 0, seldepth: 0, time: 0 }),
            r.time_manager == (LegacyTimeManager {
                move_overhead_ms: 200,
                slowmover: S::spec_one(),
                first_move_of_game: true,
                time_spared_ms: 0,
            }),
            r.move_overhead_ms == 200 && r.slowmover == S::spec_one(),
    {
        ClassicSearch {
            tree: NodeTree::new(),
            worker: WorkerSearchState::new(false),
            params,
            clock: SearchClock { move_start_ms: 0, nps_start_ms: None, initial_visits: 0 },
            root_move_filter: Vec::new(),
            contempt_mode: ContemptMode::Disable,
            stopper: None,
            planned: None,
            ok_to_respond_bestmove: true,
            bestmove_is_sent: false,
            live_info: LiveInfoState::default(),
            infinite: false,
            time_manager: LegacyTimeManager::new(200, S::one()),
            move_overhead_ms: 200,
            slowmover: S::one(),
        }
    }

    /// The visits of the position.
    pub fn total_root_visits(&self) -> (r: u32)
        requires
            self.tree.wf(),
            self.tree.current_head is Some,
        ensures
            r == self.tree.nodes()[self.tree.head()].n,
    {
        self.tree.node(self.tree.current_head()).n()
    }

    /// Sets what a report holds, and how many playouts a second are allowed.
    pub fn set_uci_info_options(
        &mut self,
        multi_pv: usize,
        per_pv_counters: bool,
        score_type: ScoreType,
        nps_limit: S,
    )
        ensures
            *final(self) == (ClassicSearch {
                params: SearchParams {
                    multi_pv,
                    per_pv_counters,
                    score_type,
                    weights: Weights { nps_limit, ..old(self).params.weights },
                    ..old(self).params
                },
                ..*old(self)
            }),
    {
        self.params.multi_pv = multi_pv;
        self.params.per_pv_counters = per_pv_counters;
        self.params.score_type = score_type;
        self.params.weights.nps_limit = nps_limit;
    }

    /// Sets how chances are rescaled, for the search and for display, and for which side draws
    /// are valued differently.
    pub fn set_wdl_options(
        &mut self,
        ratio: S,
        diff: S,
        max_s: S,
        objectivity: S,
        contempt_mode: ContemptMode,
    )
        ensures
            *final(self) == (ClassicSearch {
                params: SearchParams {
                    weights: Weights {
                        wdl_rescale_ratio: ratio,
                        wdl_rescale_diff: diff,
                        wdl_max_s: max_s,
                        wdl_eval_objectivity: objectivity,
                        ..old(self).params.weights
                    },
                    contempt_mode,
                    ..old(self).params
                },
                ..*old(self)
            }),
    {
        self.params.weights.wdl_rescale_ratio = ratio;
        self.params.weights.wdl_rescale_diff = diff;
        self.params.weights.wdl_max_s = max_s;
        self.params.weights.wdl_eval_objectivity = objectivity;
        self.params.contempt_mode = contempt_mode;
    }

    /// Sets the pace of the next game; the game under way keeps its own.
    pub fn set_time_management_options(&mut self, move_overhead_ms: i64, slowmover: S)
        ensures
            *final(self) == (ClassicSearch { move_overhead_ms, slowmover, ..*old(self) }),
    {
        self.move_overhead_ms = move_overhead_ms;
        self.slowmover = slowmover;
    }

    /// Forgets the tree, the counters and the time that was spared.
    pub fn new_game(&mut self)
        ensures
            final(self).tree.wf(),
            final(self).tree.nodes().len() == 0 && final(self).tree.history@.len() == 0,
            final(self).tree.gamebegin is None && final(self).tree.current_head is None,
            final(self).worker.is_initial(old(self).worker.stop),
            *final(self) == (ClassicSearch {
                tree: final(self).tree,
                worker: final(self).worker,
                time_manager: LegacyTimeManager {
                    move_overhead_ms: old(self).move_overhead_ms,
                    slowmover: old(self).slowmover,
                    first_move_of_game: true,
                    time_spared_ms: 0,
                },
                planned: None,
                ..*old(self)
            }),
    {
        self.tree = NodeTree::new();
        self.planned = None;
        self.time_manager = LegacyTimeManager::new(self.move_overhead_ms, self.slowmover);
        self.worker = WorkerSearchState::new(self.worker.stop);
    }

    /// Goes to a position. Where it does not continue the game, the time manager
    /// begins anew, and a search still under way spares no time for it.
    pub fn set_position(&mut self, startpos: Position, moves: &Vec<(Move, Position)>)
        requires
            old(self).tree.wf(),
            old(self).tree.gamebegin is Some ==> old(self).tree.history@.len() > 0,
            old(self).tree.nodes().len() + moves@.len() + 1 < usize::MAX,
            old(self).tree.keeps_game(startpos) ==> can_reopen_along(
                old(self).tree.nodes(),
                old(self).tree.gamebegin->Some_0 as int,
                moves@,
            ),
        ensures
            final(self).tree.wf(),
            final(self).tree.current_head is Some,
            final(self).tree.history@ == seq![startpos] + moves@.map_values(
                |m: (Move, Position)| m.1,
            ),
            ({
                let same_game = old(self).tree.keeps_game(startpos) && is_ancestor(
                    final(self).tree.nodes(),
                    old(self).tree.head(),
                    final(self).tree.head(),
                );
                &&& old(self).tree.is_reset_to(final(self).tree, startpos, moves@, same_game)
                &&& *final(self) == (ClassicSearch {
                    tree: final(self).tree,
                    time_manager: if same_game {
                        old(self).time_manager
                    } else {
                        LegacyTimeManager {
                            move_overhead_ms: old(self).move_overhead_ms,
                            slowmover: old(self).slowmover,
                            first_move_of_game: true,
                            time_spared_ms: 0,
                        }
                    },
                    planned: if same_game {
                        old(self).planned
                    } else {
                        None
                    },
                    ..*old(self)
                })
            }),
    {
        let same_game: bool = self.tree.reset_to_position(startpos, moves);
        if !same_game {
            self.time_manager = LegacyTimeManager::new(self.move_overhead_ms, self.slowmover);
            self.planned = None;
        }
    }

    /// The search once a command has been taken up, before it is judged.
    pub open spec fn taken_up(self, go: GoParams) -> Self {
        ClassicSearch {
            worker: WorkerSearchState { stop: false, ..self.worker },
            infinite: go.infinite,
            ok_to_respond_bestmove: !go.infinite && !go.ponder,
            bestmove_is_sent: false,
            live_info: LiveInfoState { edge: None, depth: 0, seldepth: 0, time: 0 },
            ..self
        }
    }

    /// Starts a search, or says why not. Says whether the user is to be warned that
    /// no side's draws are valued differently.
    pub fn start_search(
        &mut self,
        go: &GoParams,
        start: &StartPosition<S>,
        weights: &LegacyWeights<S>,
    ) -> (r: Result<bool, EnginError>)
        requires
            old(self).tree.wf(),
            old(self).tree.current_head is Some,
            start_refusal(
                *go,
                start.black_to_move,
                start.requested@,
                start.legal_moves@,
            ) is None && !go.infinite ==> (go.movetime matches Some(movetime) ==> movetime
                - old(self).time_manager.move_overhead_ms <= i64::MAX),
        ensures
            r is Ok == start_refusal(
                *go,
                start.black_to_move,
                start.requested@,
                start.legal_moves@,
            ) is None,
            r matches Err(error) ==> Some(error) == start_refusal(
                *go,
                start.black_to_move,
                start.requested@,
                start.legal_moves@,
            ),
            r is Err && (go.depth is Some || go.mate is Some) ==> *final(self) == *old(self),
            r is Err && go.depth is None && go.mate is None ==> *final(self) == old(self).taken_up(
                *go,
            ),
            r matches Ok(warn) ==> {
                let begun = old(self).taken_up(*go);
                &&& warn == (go.infinite && old(self).params.contempt_mode == ContemptMode::Play
                    && !old(self).params.weights.wdl_rescale_diff.spec_same(S::spec_zero()))
                &&& final(self).root_move_filter@ == legal_requests(
                    start.requested@,
                    start.legal_moves@,
                    start.requested@.len() as int,
                )
                &&& final(self).worker.shared_collisions@.len() == 0
                &&& final(self).planned is Some == (go.side_time(start.black_to_move) is Some
                    && !go.infinite && !go.ponder)
                &&& final(self).planned matches Some(planned) ==> planned.time_limit_ms == old(self).time_manager.planned_time(
                    *go,
                    start.black_to_move,
                    start.game_ply,
                    start.estimated_moves,
                    *weights,
                )
                &&& final(self).stopper matches Some(chain) && chain.stoppers@ == command_stoppers(
                    *go,
                    false,
                    old(self).time_manager.move_overhead_ms,
                    final(self).planned,
                )
                &&& final(self).stopper matches Some(chain) && forall|stats: IterationStats|
                    #[trigger]
                    chain.wants_stop(stats) == ((final(self).planned matches Some(planned)
                        && stats.time_since_movestart >= planned.time_limit_ms) || command_wants_stop(
                        *go,
                        false,
                        old(self).time_manager.move_overhead_ms,
                        stats,
                    ))
                &&& *final(self) == (ClassicSearch {
                    worker: WorkerSearchState {
                        total_playouts: 0,
                        total_batches: 0,
                        network_evaluations: 0,
                        cum_depth: 0,
                        max_depth: 0,
                        pending_searchers: if begun.params.max_concurrent_searchers > 0 {
                            begun.params.max_concurrent_searchers
                        } else {
                            0
                        },
                        shared_collisions: final(self).worker.shared_collisions,
                        current_best_edge: None,
                        ..begun.worker
                    },
                    clock: SearchClock {
                        move_start_ms: start.now_ms,
                        nps_start_ms: None,
                        initial_visits: begun.tree.nodes()[begun.tree.head()].n,
                    },
                    root_move_filter: final(self).root_move_filter,
                    contempt_mode: settled_contempt(
                        begun.params.contempt_mode,
                        go.infinite,
                        start.black_to_move,
                        go.ponder,
                    ),
                    stopper: final(self).stopper,
                    planned: final(self).planned,
                    time_manager: if final(self).planned is Some {
                        begun.time_manager.after_planning(
                            *go,
                            start.black_to_move,
                            start.game_ply,
                            start.estimated_moves,
                            *weights,
                        )
                    } else {
                        begun.time_manager
                    },
                    ..begun
                })
            },
    {
        if go.depth.is_some() || go.mate.is_some() {
            return Err(EnginError::Unsupported("go depth/go mate stopper"));
        }
        self.worker.stop = false;
        self.infinite = go.infinite;
        self.ok_to_respond_bestmove = !go.infinite && !go.ponder;
        self.bestmove_is_sent = false;
        self.live_info = LiveInfoState::default();
        match start_error(go, start) {
            Some(error) => {
                return Err(error);
            },
            None => {},
        }
        let filter: Vec<Move> = legal_search_moves(&start.requested, &start.legal_moves);
        self.clock = SearchClock {
            move_start_ms: start.now_ms,
            nps_start_ms: None,
            initial_visits: self.tree.node(self.tree.current_head()).n(),
        };
        self.root_move_filter = filter;
        self.contempt_mode = resolve_contempt_mode(
            self.params.contempt_mode,
            go.infinite,
            start.black_to_move,
            go.ponder,
        );
        let warn: bool = go.infinite && self.params.contempt_mode == ContemptMode::Play
            && !self.params.weights.wdl_rescale_diff.same(S::zero());
        self.worker.total_playouts = 0;
        self.worker.total_batches = 0;
        self.worker.network_evaluations = 0;
        self.worker.cum_depth = 0;
        self.worker.max_depth = 0;
        self.worker.set_max_concurrent_searchers(self.params.max_concurrent_searchers);
        self.worker.shared_collisions.clear();
        self.worker.current_best_edge = None;
        let planned: Option<TimeLimitStopper> = self.time_manager.get_stopper(
            go,
            start.black_to_move,
            start.game_ply,
            start.estimated_moves,
            weights,
        );
        let chain: ChainedSearchStopper<TimeLimitStopper> = build_search_stoppers(
            go,
            false,
            self.time_manager.move_overhead_ms(),
            planned,
        );
        self.stopper = Some(chain);
        self.planned = planned;
        Ok(warn)
    }

    /// Restarts the clock of the move.
    pub fn start_clock(&mut self, now_ms: i64)
        ensures
            *final(self) == (ClassicSearch {
                clock: SearchClock { move_start_ms: now_ms, ..old(self).clock },
                ..*old(self)
            }),
    {
        self.clock.move_start_ms = now_ms;
    }

    /// Whether the statistics can be told now.
    pub open spec fn can_tell(self, now_ms: i64) -> bool {
        &&& self.clock.can_read(now_ms)
        &&& self.worker.total_playouts + self.clock.initial_visits <= i64::MAX
        &&& self.worker.total_batches <= i64::MAX
    }

    /// Whether the statistics can be told and judged now.
    pub open spec fn can_judge(self, now_ms: i64) -> bool {
        &&& self.can_tell(now_ms)
        &&& (self.stopper matches Some(chain) ==> chain.can_judge(
            self.clock.stats(self.worker, now_ms),
        ))
    }

    /// Asks the stop conditions, and stops the search where one wants it. No search
    /// stops before the root has its first visit, and then the hints stay as they are.
    /// The conditions stay as they are, so that they can be asked again and again.
    pub fn maybe_trigger_stop(&mut self, now_ms: i64, hints: &mut StoppersHints) -> (r: bool)
        requires
            old(self).can_judge(now_ms),
        ensures
            ({
                let stats = old(self).clock.stats(old(self).worker, now_ms);
                let asks = stats.total_nodes != 0 && old(self).stopper is Some;
                &&& r == (asks && old(self).stopper->Some_0.wants_stop(stats))
                &&& *final(hints) == (if asks {
                    old(self).stopper->Some_0.hinted(stats, StoppersHints::unlimited())
                } else {
                    *old(hints)
                })
                &&& *final(self) == (ClassicSearch {
                    clock: old(self).clock.after_reading(old(self).worker, now_ms),
                    worker: WorkerSearchState {
                        stop: old(self).worker.stop || r,
                        ..old(self).worker
                    },
                    stopper: final(self).stopper,
                    ..*old(self)
                })
                &&& same_chain(old(self).stopper, final(self).stopper)
            }),
    {
        let stats: IterationStats = self.clock.populate_iteration_stats(&self.worker, now_ms);
        if stats.total_nodes == 0 {
            return false;
        }
        let mut stop: bool = false;
        match &mut self.stopper {
            Some(chain) => {
                hints.reset();
                let ghost before = chain.stoppers@;
                stop = chain.should_stop(&stats, hints);
                proof {
                    law_own_conditions_stay(before, chain.stoppers@, stats);
                }
            },
            None => {},
        }
        if stop {
            self.worker.stop = true;
        }
        stop
    }

    /// Is told once that the answer is about to go out: what the search did not use of
    /// its time is spared for later moves.
    pub fn on_search_done(&mut self, now_ms: i64)
        requires
            old(self).can_tell(now_ms),
        ensures
            *final(self) == (ClassicSearch {
                clock: old(self).clock.after_reading(old(self).worker, now_ms),
                time_manager: match old(self).planned {
                    Some(planned) => LegacyTimeManager {
                        time_spared_ms: clocked(
                            old(self).time_manager.time_spared_ms + clocked(
                                planned.time_limit_ms - (now_ms - old(self).clock.move_start_ms),
                            ),
                        ) as i64,
                        ..old(self).time_manager
                    },
                    None => old(self).time_manager,
                },
                ..*old(self)
            }),
    {
        let stats: IterationStats = self.clock.populate_iteration_stats(&self.worker, now_ms);
        match self.planned {
            Some(planned) => {
                self.time_manager.on_search_done(&planned, stats.time_since_movestart);
            },
            None => {},
        }
    }

    /// Whether a report differs enough from the last one: another best edge, another
    /// depth, or five seconds.
    pub open spec fn is_news(self, depth: i32, seldepth: i32, time: i64) -> bool {
        ||| self.worker.current_best_edge != self.live_info.edge
        ||| depth != self.live_info.depth
        ||| seldepth != self.live_info.seldepth
        ||| self.live_info.time + 5000 < time
    }

    /// Decides whether a report goes out while the search runs. None does before there
    /// is a best edge, nor once the answer has been sent.
    pub fn maybe_output_info(&mut self, depth: i32, seldepth: i32, time: i64) -> (r: InfoOutput)
        ensures
            ({
                let reports = !old(self).bestmove_is_sent
                    && old(self).worker.current_best_edge is Some && old(self).is_news(
                    depth,
                    seldepth,
                    time,
                );
                &&& r == (if !reports {
                    InfoOutput::Quiet
                } else if old(self).worker.stop && !old(self).ok_to_respond_bestmove {
                    InfoOutput::ReportAndWarn
                } else {
                    InfoOutput::Report
                })
                &&& *final(self) == (if reports {
                    ClassicSearch {
                        live_info: LiveInfoState {
                            edge: old(self).worker.current_best_edge,
                            depth,
                            seldepth,
                            time,
                        },
                        ..*old(self)
                    }
                } else {
                    *old(self)
                })
            }),
    {
        if self.bestmove_is_sent {
            return InfoOutput::Quiet;
        }
        let edge: Option<usize> = self.worker.current_best_edge;
        if edge.is_none() {
            return InfoOutput::Quiet;
        }
        let same_edge: bool = match (edge, self.live_info.edge) {
            (Some(a), Some(b)) => a == b,
            _ => false,
        };
        if same_edge && depth == self.live_info.depth && seldepth == self.live_info.seldepth && (
        self.live_info.time as i128) + 5000 >= time as i128 {
            return InfoOutput::Quiet;
        }
        self.live_info = LiveInfoState { edge, depth, seldepth, time };
        if self.worker.stop && !self.ok_to_respond_bestmove {
            InfoOutput::ReportAndWarn
        } else {
            InfoOutput::Report
        }
    }

    /// Claims the answer: once, after a stop, where an answer is allowed and a playout
    /// has completed.
    pub fn claim_bestmove(&mut self) -> (r: bool)
        ensures
            r == old(self).may_answer(),
            *final(self) == (ClassicSearch {
                bestmove_is_sent: old(self).bestmove_is_sent || r,
                ..*old(self)
            }),
    {
        let claimed: bool = self.worker.stop && self.ok_to_respond_bestmove
            && self.worker.total_playouts > 0 && !self.bestmove_is_sent;
        if claimed {
            self.bestmove_is_sent = true;
        }
        claimed
    }

    /// Asks for an end and for the answer.
    pub fn stop_search(&mut self)
        ensures
            *final(self) == (ClassicSearch {
                ok_to_respond_bestmove: true,
                worker: WorkerSearchState { stop: true, ..old(self).worker },
                ..*old(self)
            }),
    {
        self.ok_to_respond_bestmove = true;
        self.worker.stop = true;
    }

    /// Asks for an end without an answer.
    pub fn abort_search(&mut self)
        ensures
            *final(self) == (ClassicSearch {
                bestmove_is_sent: true,
                worker: WorkerSearchState { stop: true, ..old(self).worker },
                ..*old(self)
            }),
    {
        self.bestmove_is_sent = true;
        self.worker.stop = true;
    }

    /// Ends a search whose threads have come to rest: the visits that collided no
    /// longer count as under way. Where only those did, none does any more; a worker
    /// that failed may have left others.
    pub fn wait_search(&mut self)
        requires
            old(self).tree.wf(),
            old(self).tree.current_head is Some,
            forall|k: int|
                0 <= k < old(self).worker.shared_collisions@.len() ==> {
                    &&& (#[trigger] old(self).worker.shared_collisions@[k]).0 < old(self).tree.nodes().len()
                    &&& is_ancestor(
                        old(self).tree.nodes(),
                        old(self).tree.head(),
                        old(self).worker.shared_collisions@[k].0 as int,
                    )
                },
            forall|x: int|
                0 <= x < old(self).tree.nodes().len() ==> (#[trigger] old(self).tree.nodes()[x]).n_in_flight >= collisions_load(
                    old(self).tree.nodes(),
                    old(self).tree.head(),
                    old(self).worker.shared_collisions@,
                    old(self).worker.shared_collisions@.len() as int,
                    x,
                ),
        ensures
            final(self).tree.wf(),
            only_in_flight(old(self).tree.nodes(), final(self).tree.nodes()),
            forall|x: int|
                0 <= x < final(self).tree.nodes().len() ==> (#[trigger] final(self).tree.nodes()[x]).n_in_flight == old(self).tree.nodes()[x].n_in_flight - collisions_load(
                    old(self).tree.nodes(),
                    old(self).tree.head(),
                    old(self).worker.shared_collisions@,
                    old(self).worker.shared_collisions@.len() as int,
                    x,
                ),
            (forall|x: int|
                0 <= x < old(self).tree.nodes().len() ==> (#[trigger] old(self).tree.nodes()[x]).n_in_flight == collisions_load(
                    old(self).tree.nodes(),
                    old(self).tree.head(),
                    old(self).worker.shared_collisions@,
                    old(self).worker.shared_collisions@.len() as int,
                    x,
                )) ==> forall|x: int|
                0 <= x < final(self).tree.nodes().len() ==> (#[trigger] final(self).tree.nodes()[x]).n_in_flight == 0,
            final(self).worker.shared_collisions@.len() == 0,
            *final(self) == (ClassicSearch {
                tree: NodeTree { arena: final(self).tree.arena, ..old(self).tree },
                worker: WorkerSearchState {
                    shared_collisions: final(self).worker.shared_collisions,
                    ..old(self).worker
                },
                ..*old(self)
            }),
    {
        let head: usize = self.tree.current_head();
        cancel_shared_collisions(&mut self.worker, &mut self.tree, head);
    }
}

/// How long the watchdog sleeps: as long as is expected to remain, between one
/// millisecond and a hundred.
pub fn watchdog_wait_ms(hints: &StoppersHints) -> (r: i64)
    ensures
        r == (if hints.remaining_time_ms < 1 {
            1
        } else if hints.remaining_time_ms > 100 {
            100
        } else {
            hints.remaining_time_ms as int
        }),
{
    let remaining: i64 = hints.estimated_remaining_time_ms();
    if remaining < 1 {
        1
    } else if remaining > 100 {
        100
    } else {
        remaining
    }
}

/// How many workers to start: as many as asked for, or else as many as the backend
/// suggests and one more where it does not run on the processor.
pub fn search_thread_count(how_many: usize, suggested: usize, runs_on_cpu: bool) -> (r: usize)
    requires
        suggested < usize::MAX,
    ensures
        r == (if how_many > 0 {
            how_many as int
        } else if runs_on_cpu {
            suggested as int
        } else {
            suggested + 1
        }),
{
    if how_many > 0 {
        how_many
    } else if runs_on_cpu {
        suggested
    } else {
        suggested + 1
    }
}

/// A search that may not answer stays silent until it is told to stop, and a search
/// that was aborted never answers.
pub proof fn law_answers_only_when_allowed<S: Scalar>(
    search: ClassicSearch<S>,
    go: GoParams,
    stopped: ClassicSearch<S>,
    aborted: ClassicSearch<S>,
)
    requires
        stopped == (ClassicSearch {
            ok_to_respond_bestmove: true,
            worker: WorkerSearchState { stop: true, ..search.taken_up(go).worker },
            ..search.taken_up(go)
        }),
        aborted == (ClassicSearch {
            bestmove_is_sent: true,
            worker: WorkerSearchState { stop: true, ..search.worker },
            ..search
        }),
    ensures
        go.infinite || go.ponder ==> !search.taken_up(go).may_answer(),
        stopped.worker.total_playouts > 0 ==> stopped.may_answer(),
        !aborted.may_answer(),
{
}

impl<S: Scalar> ClassicSearch<S> {
    /// Whether the answer can be claimed.
    pub open spec fn may_answer(self) -> bool {
        self.worker.stop && self.ok_to_respond_bestmove && self.worker.total_playouts > 0
            && !self.bestmove_is_sent
    }
}

} // verus!
