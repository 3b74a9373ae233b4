//! What a search keeps between commands, and what it reports while it runs.
use vstd::prelude::*;

use crate::classic::search::Wdl;
use crate::classic::session::{legal_requests, legal_search_moves};
use crate::error::EnginError;
use crate::graph::history::History;
use crate::graph::key::NodeKey;
use crate::graph::node::NodeModel;
use crate::graph::policy::SearchParams;
use crate::graph::ranking::{is_ranking, Candidate};
use crate::graph::repository::NodeRepository;
use crate::graph::search_graph::{Continuations, SearchGraph};
use crate::graph::stats::{
    are_variations, best_mate_with_params, best_move_filtered, is_best_mate, is_best_move, is_line,
    principal_variation_filtered, root_stats, root_variations, RootVariation,
};
use crate::position::{copy_moves, Move};
use crate::scalar::{clamp_to, clamped, Scalar};
use crate::stream::shared::Stats;

verus! {

/// What a report is compared by before it is made.
#[derive(Clone, Copy, Debug, PartialEq, Eq, Structural)]
pub struct WatchdogProgress {
    pub best_move: Option<Move>,
    pub depth: i32,
    pub seldepth: i32,
}

/// A count as far as a report can show it.
pub open spec fn shown(count: u64) -> i32 {
    if count > i32::MAX {
        i32::MAX
    } else {
        count as i32
    }
}

fn show(count: u64) -> (r: i32)
    ensures
        r == shown(count),
{
    if count > i32::MAX as u64 {
        i32::MAX
    } else {
        count as i32
    }
}

/// A count per second, 0 before a millisecond has passed.
pub open spec fn rate_of(count: u64, time_ms: u64) -> int {
    if time_ms == 0 {
        0
    } else {
        (if count * 1000 > u64::MAX {
            u64::MAX as int
        } else {
            count * 1000
        }) / time_ms as int
    }
}

fn rate(count: u64, time_ms: u64) -> (r: u64)
    ensures
        r == rate_of(count, time_ms),
{
    if time_ms == 0 {
        0
    } else {
        let scaled: u64 = if count > u64::MAX / 1000 {
            u64::MAX
        } else {
            count * 1000
        };
        scaled / time_ms
    }
}

/// One line of a report.
#[derive(Debug)]
pub struct LineInfo {
    pub depth: i32,
    pub seldepth: i32,
    pub time_ms: u64,
    pub nodes: u64,
    pub nps: u64,
    pub eps: u64,
    pub mate: Option<i32>,
    /// The value in thousandths, where there is no mate.
    pub score: Option<i32>,
    pub wdl: Option<Wdl>,
    pub pv: Vec<Move>,
    /// The number of the line, where there are several.
    pub multipv: Option<usize>,
}

/// Chances in thousandths, from a value and a draw share.
pub open spec fn chances<S: Scalar>(wl: S, draw: S) -> Wdl {
    let one = S::spec_one();
    let half = one.spec_over(S::spec_count(2));
    let thousand = S::spec_count(1000);
    let win = clamped(
        S::spec_zero(),
        one.spec_minus(draw).spec_plus(wl).spec_times(half),
        one,
    );
    let loss = clamped(
        S::spec_zero(),
        one.spec_minus(draw).spec_minus(wl).spec_times(half),
        one,
    );
    Wdl {
        w: win.spec_times(thousand).spec_rounded(),
        d: draw.spec_times(thousand).spec_rounded(),
        l: loss.spec_times(thousand).spec_rounded(),
    }
}

fn wdl_of<S: Scalar>(wl: S, draw: S) -> (r: Wdl)
    ensures
        r == chances(wl, draw),
{
    let half: S = S::one().over(S::count(2));
    let thousand: S = S::count(1000);
    let win: S = clamp_to(
        S::zero(),
        S::one().minus(draw).plus(wl).times(half),
        S::one(),
    );
    let loss: S = clamp_to(
        S::zero(),
        S::one().minus(draw).minus(wl).times(half),
        S::one(),
    );
    Wdl {
        w: win.times(thousand).rounded(),
        d: draw.times(thousand).rounded(),
        l: loss.times(thousand).rounded(),
    }
}

/// What a report reads.
#[derive(Debug)]
pub struct WatchdogSnapshot {
    pub root_key: NodeKey,
    pub root_is_black: bool,
    pub root_move_filter: Vec<Move>,
    pub multi_pv: usize,
}

/// Whether a line of a report shows the counters.
pub open spec fn has_counters(info: LineInfo, stats: Stats, time_ms: u64) -> bool {
    &&& info.depth == shown(stats.average_depth)
    &&& info.seldepth == shown(stats.max_depth)
    &&& info.time_ms == time_ms
    &&& info.nodes == stats.completed_playouts
    &&& info.nps == rate_of(stats.completed_playouts, time_ms)
    &&& info.eps == rate_of(stats.network_evaluations, time_ms)
}

/// Whether a line of a report shows a candidate, number `k` of `count`.
pub open spec fn shows_variation<S: Scalar>(
    info: LineInfo,
    variation: RootVariation<S>,
    k: int,
    count: int,
) -> bool {
    &&& info.mate == variation.mate
    &&& info.score == (if variation.mate is Some {
        None
    } else {
        Some(variation.wl.spec_times(S::spec_count(1000)).spec_rounded())
    })
    &&& info.wdl == Some(chances(variation.wl, variation.draw))
    &&& info.pv@ == variation.pv@
    &&& info.multipv == (if count > 1 {
        Some((k + 1) as usize)
    } else {
        None
    })
}

/// Whether a report shows candidates, one after the other.
pub open spec fn shows_all<S: Scalar>(
    infos: Seq<LineInfo>,
    variations: Seq<RootVariation<S>>,
    stats: Stats,
    time_ms: u64,
) -> bool {
    &&& infos.len() == variations.len()
    &&& forall|k: int|
        0 <= k < infos.len() ==> has_counters(#[trigger] infos[k], stats, time_ms)
            && shows_variation(infos[k], variations[k], k, infos.len() as int)
}

impl WatchdogSnapshot {
    /// What a report is compared by before it is made.
    pub fn progress<S: Scalar>(&self, repository: &NodeRepository<S>, stats: &Stats) -> (r:
        WatchdogProgress)
        requires
            repository.wf(),
        ensures
            is_best_move(
                repository@,
                self.root_key,
                self.root_is_black,
                self.root_move_filter@,
                SearchParams::spec_default(),
                r.best_move,
            ),
            r.depth == shown(stats.average_depth),
            r.seldepth == shown(stats.max_depth),
    {
        WatchdogProgress {
            best_move: best_move_filtered(
                repository,
                self.root_key,
                self.root_is_black,
                &self.root_move_filter,
            ),
            depth: show(stats.average_depth),
            seldepth: show(stats.max_depth),
        }
    }

    /// Whether a report shows the candidates of the root, or the root itself where it has
    /// none, or the counters alone where there is no root.
    pub open spec fn is_report<S: Scalar>(
        self,
        nodes: Map<NodeKey, NodeModel<S>>,
        stats: Stats,
        time_ms: u64,
        infos: Seq<LineInfo>,
    ) -> bool {
        let params = SearchParams::<S>::spec_default();
        if !nodes.contains_key(self.root_key) {
            &&& infos.len() == 1
            &&& has_counters(infos[0], stats, time_ms)
            &&& infos[0].mate is None && infos[0].score is None && infos[0].wdl is None
            &&& infos[0].pv@.len() == 0 && infos[0].multipv is None
        } else {
            exists|ranked: Seq<Candidate<S>>, variations: Seq<RootVariation<S>>|
                {
                    &&& #[trigger] is_ranking(
                        ranked,
                        nodes,
                        nodes[self.root_key],
                        self.root_move_filter@,
                        params,
                    )
                    &&& #[trigger] are_variations(
                        variations,
                        ranked,
                        nodes,
                        self.root_key,
                        self.root_is_black,
                        self.multi_pv as int,
                    )
                    &&& if variations.len() > 0 {
                        shows_all(infos, variations, stats, time_ms)
                    } else {
                        &&& infos.len() == 1
                        &&& has_counters(infos[0], stats, time_ms)
                        &&& infos[0].multipv is None
                        &&& is_best_mate(
                            nodes,
                            self.root_key,
                            self.root_move_filter@,
                            params,
                            infos[0].mate,
                        )
                        &&& infos[0].wdl == Some(
                            chances(
                                self.root_value(nodes[self.root_key]),
                                self.root_draw(nodes[self.root_key]),
                            ),
                        )
                        &&& infos[0].score == (if infos[0].mate is Some {
                            None
                        } else {
                            Some(
                                self.root_value(nodes[self.root_key]).spec_times(
                                    S::spec_count(1000),
                                ).spec_rounded(),
                            )
                        })
                        &&& is_line(
                            nodes,
                            self.root_key,
                            self.root_is_black,
                            Set::empty(),
                            Some((self.root_move_filter@, params)),
                            infos[0].pv@,
                        )
                    }
                }
        }
    }

    /// The value of the root for the side to move.
    pub open spec fn root_value<S: Scalar>(self, root: NodeModel<S>) -> S {
        clamped(S::spec_one().spec_negated(), root.spec_q().spec_negated(), S::spec_one())
    }

    /// The draw share of the root.
    pub open spec fn root_draw<S: Scalar>(self, root: NodeModel<S>) -> S {
        clamped(S::spec_zero(), root.mean(root.stats.draw_sum), S::spec_one())
    }

    /// Reports the best candidates of the root, best first.
    pub fn thinking_infos<S: Scalar>(
        &self,
        repository: &NodeRepository<S>,
        stats: &Stats,
        time_ms: u64,
    ) -> (r: Vec<LineInfo>)
        requires
            repository.wf(),
        ensures
            self.is_report(repository@, *stats, time_ms, r@),
    {
        let mut infos: Vec<LineInfo> = Vec::new();
        let root = match root_stats(repository, self.root_key) {
            Some(root) => root,
            None => {
                infos.push(self.counters(stats, time_ms));
                return infos;
            },
        };
        let params: SearchParams<S> = SearchParams::default();
        let variations: Vec<RootVariation<S>> = root_variations(
            repository,
            self.root_key,
            self.root_is_black,
            &self.root_move_filter,
            self.multi_pv,
            &params,
        );
        let ghost ranked = choose|ranked: Seq<Candidate<S>>| #[trigger]
            is_ranking(
                ranked,
                repository@,
                repository@[self.root_key],
                self.root_move_filter@,
                params,
            ) && are_variations(
                variations@,
                ranked,
                repository@,
                self.root_key,
                self.root_is_black,
                self.multi_pv as int,
            );
        assert(is_ranking(
            ranked,
            repository@,
            repository@[self.root_key],
            self.root_move_filter@,
            params,
        ));
        assert(are_variations(
            variations@,
            ranked,
            repository@,
            self.root_key,
            self.root_is_black,
            self.multi_pv as int,
        ));
        if variations.is_empty() {
            let wl: S = clamp_to(S::one().negated(), root.q.negated(), S::one());
            let draw: S = clamp_to(S::zero(), root.draw, S::one());
            let mate: Option<i32> = best_mate_with_params(
                repository,
                self.root_key,
                &self.root_move_filter,
                &params,
            );
            let mut info: LineInfo = self.counters(stats, time_ms);
            info.mate = mate;
            info.score = if mate.is_some() {
                None
            } else {
                Some(wl.times(S::count(1000)).rounded())
            };
            info.wdl = Some(wdl_of(wl, draw));
            info.pv = principal_variation_filtered(
                repository,
                self.root_key,
                self.root_is_black,
                &self.root_move_filter,
            );
            infos.push(info);
            return infos;
        }
        let count: usize = variations.len();
        let mut k: usize = 0;
        while k < count
            invariant
                count == variations@.len(),
                k <= count,
                infos@.len() == k,
                forall|j: int|
                    0 <= j < k ==> has_counters(#[trigger] infos@[j], *stats, time_ms)
                        && shows_variation(infos@[j], variations@[j], j, count as int),
            decreases count - k,
        {
            let variation: &RootVariation<S> = &variations[k];
            let mut info: LineInfo = self.counters(stats, time_ms);
            info.mate = variation.mate;
            info.score = if variation.mate.is_some() {
                None
            } else {
                Some(variation.wl.times(S::count(1000)).rounded())
            };
            info.wdl = Some(wdl_of(variation.wl, variation.draw));
            info.pv = copy_moves(&variation.pv);
            info.multipv = if count > 1 {
                Some(k + 1)
            } else {
                None
            };
            infos.push(info);
            k += 1;
        }
        assert(shows_all(infos@, variations@, *stats, time_ms));
        infos
    }

    fn counters(&self, stats: &Stats, time_ms: u64) -> (r: LineInfo)
        ensures
            has_counters(r, *stats, time_ms),
            r.mate is None && r.score is None && r.wdl is None,
            r.pv@.len() == 0 && r.multipv is None,
    {
        LineInfo {
            depth: show(stats.average_depth),
            seldepth: show(stats.max_depth),
            time_ms,
            nodes: stats.completed_playouts,
            nps: rate(stats.completed_playouts, time_ms),
            eps: rate(stats.network_evaluations, time_ms),
            mate: None,
            score: None,
            wdl: None,
            pv: Vec::new(),
            multipv: None,
        }
    }
}

/// How many workers each stage has.
#[derive(Clone, Copy, Debug, PartialEq, Eq, Structural)]
pub struct WorkerCounts {
    pub gather: usize,
    pub eval: usize,
    pub backprop: usize,
}

/// What a search keeps between commands. Options apply to the next search.
#[derive(Debug)]
pub struct SearchState<S> {
    /// The size of the evaluation cache, as a power of two, that is still to be set.
    pub pending_nn_cache_size_power_of_two: Option<u8>,
    pub graph: Option<SearchGraph<S>>,
    pub next_generation: u64,
    pub multi_pv: usize,
    pub mini_batch_size: usize,
    pub search_params: SearchParams<S>,
    pub workers: WorkerCounts,
}

/// A search that is about to run.
#[derive(Debug)]
pub struct RunningSearch<S> {
    pub generation: u64,
    pub root_key: NodeKey,
    pub root_is_black: bool,
    pub root_move_filter: Vec<Move>,
    pub multi_pv: usize,
    pub mini_batch_size: usize,
    pub params: SearchParams<S>,
    pub workers: WorkerCounts,
    /// The cache size that is to be set before the search.
    pub nn_cache_size_power_of_two: Option<u8>,
}

impl<S: Scalar> SearchState<S> {
    pub open spec fn wf(&self) -> bool {
        self.graph matches Some(graph) ==> graph.wf()
    }

    /// A state without a position.
    pub fn new(mini_batch_size: usize, workers: WorkerCounts) -> (r: Self)
        ensures
            r.wf(),
            r.graph is None,
            r.pending_nn_cache_size_power_of_two is None,
            r.next_generation == 0,
            r.multi_pv == 1,
            r.mini_batch_size == mini_batch_size,
            r.search_params == SearchParams::<S>::spec_default(),
            r.workers == workers,
    {
        SearchState {
            pending_nn_cache_size_power_of_two: None,
            graph: None,
            next_generation: 0,
            multi_pv: 1,
            mini_batch_size,
            search_params: SearchParams::default(),
            workers,
        }
    }

    pub fn set_mini_batch_size(&mut self, mini_batch_size: usize)
        ensures
            *final(self) == (SearchState { mini_batch_size, ..*old(self) }),
    {
        self.mini_batch_size = mini_batch_size;
    }

    /// Notes the cache size for the next search.
    pub fn set_nn_cache_size_power_of_two(&mut self, size_power_of_two: u8)
        ensures
            *final(self) == (SearchState {
                pending_nn_cache_size_power_of_two: Some(size_power_of_two),
                ..*old(self)
            }),
    {
        self.pending_nn_cache_size_power_of_two = Some(size_power_of_two);
    }

    /// Sets how much is explored; everything else stays.
    pub fn set_search_params(&mut self, cpuct: S, cpuct_base: S, cpuct_factor: S, fpu_reduction: S)
        ensures
            *final(self) == (SearchState {
                search_params: SearchParams {
                    cpuct,
                    cpuct_base,
                    cpuct_factor,
                    fpu_reduction,
                    ..old(self).search_params
                },
                ..*old(self)
            }),
    {
        self.search_params.cpuct = cpuct;
        self.search_params.cpuct_base = cpuct_base;
        self.search_params.cpuct_factor = cpuct_factor;
        self.search_params.fpu_reduction = fpu_reduction;
    }

    pub fn set_worker_counts(&mut self, workers: WorkerCounts)
        ensures
            *final(self) == (SearchState { workers, ..*old(self) }),
    {
        self.workers = workers;
    }

    pub fn set_multi_pv(&mut self, multi_pv: usize)
        ensures
            *final(self) == (SearchState { multi_pv, ..*old(self) }),
    {
        self.multi_pv = multi_pv;
    }

    /// Goes to a position. The first position begins a graph; later ones move it on or
    /// replace it.
    pub fn set_position(&mut self, target: &History, steps: &Vec<Continuations>) -> (r: Result<
        Option<NodeRepository<S>>,
        EnginError,
    >)
        requires
            old(self).wf(),
            target.positions@.len() > 0,
            forall|j: int| 0 <= j < steps@.len() ==> (#[trigger] steps@[j]).wf(),
            old(self).graph matches Some(graph) ==> (graph.is_continued_by(*target)
                ==> steps@.len() == target.positions@.len()
                - graph.root_history.positions@.len()),
        ensures
            final(self).wf(),
            final(self).graph is Some,
            *final(self) == (SearchState { graph: final(self).graph, ..*old(self) }),
            match old(self).graph {
                Some(graph) => graph.is_reset(final(self).graph->Some_0, *target, steps@, r),
                None => {
                    &&& r matches Ok(None)
                    &&& final(self).graph->Some_0.root_history.same_as(*target)
                    &&& final(self).graph->Some_0.repository@
                        == Map::<NodeKey, NodeModel<S>>::empty()
                    &&& !final(self).graph->Some_0.gc_pending
                },
            },
    {
        match &mut self.graph {
            Some(graph) => graph.reset_to_history_after_drain(target, steps),
            None => {
                self.graph = Some(SearchGraph::new(target.copy()));
                Ok(None)
            },
        }
    }

    /// Begins a search from the position, restricted to those requested moves that are
    /// legal. Without a position, or where none of the requested moves is legal, it is
    /// refused.
    pub fn begin_search(&mut self, requested: &Vec<Option<Move>>, legal_moves: &Vec<Move>) -> (r:
        Result<RunningSearch<S>, EnginError>)
        requires
            old(self).wf(),
        ensures
            final(self).wf(),
            ({
                let filter = legal_requests(requested@, legal_moves@, requested@.len() as int);
                &&& r is Ok == (old(self).graph is Some && (requested@.len() == 0 || filter.len()
                    > 0))
                &&& (r matches Err(error) ==> error == (if old(self).graph is None {
                    EnginError::Uci("position is not configured")
                } else {
                    EnginError::Uci("No legal searchmoves.")
                }))
                &&& *final(self) == (SearchState {
                    pending_nn_cache_size_power_of_two: None,
                    next_generation: if r is Ok {
                        crate::stream::observer::wrapped_sum(old(self).next_generation, 1)
                    } else {
                        old(self).next_generation
                    },
                    ..*old(self)
                })
                &&& (r matches Ok(search) ==> {
                    let graph = old(self).graph->Some_0;
                    &&& search.generation == final(self).next_generation
                    &&& search.root_key == graph.root_key
                    &&& search.root_is_black == graph.root_history.spec_last().black_to_move
                    &&& search.root_move_filter@ == filter
                    &&& search.multi_pv == old(self).multi_pv
                    &&& search.mini_batch_size == old(self).mini_batch_size
                    &&& search.params == old(self).search_params
                    &&& search.workers == old(self).workers
                    &&& search.nn_cache_size_power_of_two
                        == old(self).pending_nn_cache_size_power_of_two
                })
            }),
    {
        let cache_size: Option<u8> = self.pending_nn_cache_size_power_of_two;
        self.pending_nn_cache_size_power_of_two = None;
        let (root_key, root_is_black): (NodeKey, bool) = match &self.graph {
            Some(graph) => (graph.root_key(), graph.root_history().last().black_to_move),
            None => {
                return Err(EnginError::Uci("position is not configured"));
            },
        };
        let filter: Vec<Move> = legal_search_moves(requested, legal_moves);
        if !requested.is_empty() && filter.is_empty() {
            return Err(EnginError::Uci("No legal searchmoves."));
        }
        self.next_generation = if self.next_generation == u64::MAX {
            0
        } else {
            self.next_generation + 1
        };
        Ok(
            RunningSearch {
                generation: self.next_generation,
                root_key,
                root_is_black,
                root_move_filter: filter,
                multi_pv: self.multi_pv,
                mini_batch_size: self.mini_batch_size,
                params: self.search_params,
                workers: self.workers,
                nn_cache_size_power_of_two: cache_size,
            },
        )
    }
}

impl<S: Scalar> RunningSearch<S> {
    /// What the reports of this search read.
    pub fn watchdog_snapshot(&self) -> (r: WatchdogSnapshot)
        ensures
            r.root_key == self.root_key,
            r.root_is_black == self.root_is_black,
            r.root_move_filter@ == self.root_move_filter@,
            r.multi_pv == self.multi_pv,
    {
        WatchdogSnapshot {
            root_key: self.root_key,
            root_is_black: self.root_is_black,
            root_move_filter: copy_moves(&self.root_move_filter),
            multi_pv: self.multi_pv,
        }
    }
}

} // verus!
