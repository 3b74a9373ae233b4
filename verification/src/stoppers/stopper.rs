//! Stop conditions and their combination.
use vstd::prelude::*;

use crate::go_params::GoParams;
use crate::stoppers::timemgr::{IterationStats, StoppersHints};

verus! {

/// A condition under which a search stops.
pub trait SearchStopper: Send {
    /// Whether the condition can judge these statistics: its differences fit.
    spec fn can_judge(&self, stats: IterationStats) -> bool;

    /// Whether the search should stop.
    spec fn wants_stop(&self, stats: IterationStats) -> bool;

    /// The hints with what this condition adds.
    spec fn hinted(&self, stats: IterationStats, hints: StoppersHints) -> StoppersHints;

    /// Whether this condition becomes `after` once it has been asked.
    spec fn asked(&self, stats: IterationStats, after: &Self) -> bool;

    /// Whether this condition becomes `after` once it is told that the search is over.
    spec fn told_done(&self, stats: IterationStats, after: &Self) -> bool;

    /// Says whether the search should stop, and what is expected to remain.
    fn should_stop(&mut self, stats: &IterationStats, hints: &mut StoppersHints) -> (r: bool)
        requires
            old(self).can_judge(*stats),
        ensures
            r == old(self).wants_stop(*stats),
            *final(hints) == old(self).hinted(*stats, *old(hints)),
            old(self).asked(*stats, &*final(self)),
    ;

    /// Is told once that the search is over.
    fn on_search_done(&mut self, stats: &IterationStats)
        ensures
            old(self).told_done(*stats, &*final(self)),
    ;
}

/// One condition of a chain: one of the library's own, or another.
#[derive(Clone, Copy, Debug)]
pub enum Stopper<T> {
    Visits(VisitsStopper),
    Playouts(PlayoutsStopper),
    TimeLimit(TimeLimitStopper),
    Other(T),
}

impl<T: SearchStopper> SearchStopper for Stopper<T> {
    open spec fn can_judge(&self, stats: IterationStats) -> bool {
        match self {
            Stopper::Visits(stopper) => stopper.can_judge(stats),
            Stopper::Playouts(stopper) => stopper.can_judge(stats),
            Stopper::TimeLimit(stopper) => stopper.can_judge(stats),
            Stopper::Other(stopper) => stopper.can_judge(stats),
        }
    }

    open spec fn wants_stop(&self, stats: IterationStats) -> bool {
        match self {
            Stopper::Visits(stopper) => stopper.wants_stop(stats),
            Stopper::Playouts(stopper) => stopper.wants_stop(stats),
            Stopper::TimeLimit(stopper) => stopper.wants_stop(stats),
            Stopper::Other(stopper) => stopper.wants_stop(stats),
        }
    }

    open spec fn hinted(&self, stats: IterationStats, hints: StoppersHints) -> StoppersHints {
        match self {
            Stopper::Visits(stopper) => stopper.hinted(stats, hints),
            Stopper::Playouts(stopper) => stopper.hinted(stats, hints),
            Stopper::TimeLimit(stopper) => stopper.hinted(stats, hints),
            Stopper::Other(stopper) => stopper.hinted(stats, hints),
        }
    }

    /// The condition stays of its kind, and what it holds is asked.
    open spec fn asked(&self, stats: IterationStats, after: &Self) -> bool {
        match (self, after) {
            (Stopper::Visits(stopper), Stopper::Visits(next)) => stopper.asked(stats, next),
            (Stopper::Playouts(stopper), Stopper::Playouts(next)) => stopper.asked(stats, next),
            (Stopper::TimeLimit(stopper), Stopper::TimeLimit(next)) => stopper.asked(stats, next),
            (Stopper::Other(stopper), Stopper::Other(next)) => stopper.asked(stats, next),
            _ => false,
        }
    }

    /// The condition stays of its kind, and what it holds is told.
    open spec fn told_done(&self, stats: IterationStats, after: &Self) -> bool {
        match (self, after) {
            (Stopper::Visits(stopper), Stopper::Visits(next)) => stopper.told_done(stats, next),
            (Stopper::Playouts(stopper), Stopper::Playouts(next)) => stopper.told_done(stats, next),
            (Stopper::TimeLimit(stopper), Stopper::TimeLimit(next)) => stopper.told_done(
                stats,
                next,
            ),
            (Stopper::Other(stopper), Stopper::Other(next)) => stopper.told_done(stats, next),
            _ => false,
        }
    }

    fn should_stop(&mut self, stats: &IterationStats, hints: &mut StoppersHints) -> (r: bool) {
        match self {
            Stopper::Visits(stopper) => stopper.should_stop(stats, hints),
            Stopper::Playouts(stopper) => stopper.should_stop(stats, hints),
            Stopper::TimeLimit(stopper) => stopper.should_stop(stats, hints),
            Stopper::Other(stopper) => stopper.should_stop(stats, hints),
        }
    }

    fn on_search_done(&mut self, stats: &IterationStats) {
        match self {
            Stopper::Visits(stopper) => stopper.on_search_done(stats),
            Stopper::Playouts(stopper) => stopper.on_search_done(stats),
            Stopper::TimeLimit(stopper) => stopper.on_search_done(stats),
            Stopper::Other(stopper) => stopper.on_search_done(stats),
        }
    }
}

/// Several conditions, asked in order: the search stops where one of them wants it.
#[derive(Debug)]
pub struct ChainedSearchStopper<T> {
    pub stoppers: Vec<Stopper<T>>,
}

/// Whether all conditions can judge these statistics.
pub open spec fn all_can_judge<T: SearchStopper>(
    stoppers: Seq<Stopper<T>>,
    stats: IterationStats,
) -> bool {
    forall|i: int| 0 <= i < stoppers.len() ==> (#[trigger] stoppers[i]).can_judge(stats)
}

/// Whether every condition was told that the search is over: they stand in `after` in
/// the same order, each as it becomes.
pub open spec fn all_told_done<T: SearchStopper>(
    stoppers: Seq<Stopper<T>>,
    after: Seq<Stopper<T>>,
    stats: IterationStats,
) -> bool {
    &&& after.len() == stoppers.len()
    &&& forall|i: int|
        0 <= i < stoppers.len() ==> (#[trigger] stoppers[i]).told_done(stats, &after[i])
}

/// Whether one of the first `k` conditions wants the search to stop.
pub open spec fn some_wants_stop<T: SearchStopper>(
    stoppers: Seq<Stopper<T>>,
    k: int,
    stats: IterationStats,
) -> bool
    decreases k,
{
    k > 0 && (some_wants_stop(stoppers, k - 1, stats) || stoppers[k - 1].wants_stop(stats))
}

/// Whether the conditions were asked in order up to the first that wants to stop: they
/// stand in `after` in the same order, those asked as they become and the rest as they
/// were.
pub open spec fn all_asked<T: SearchStopper>(
    stoppers: Seq<Stopper<T>>,
    after: Seq<Stopper<T>>,
    stats: IterationStats,
) -> bool {
    &&& after.len() == stoppers.len()
    &&& forall|i: int|
        #![trigger stoppers[i]]
        #![trigger after[i]]
        0 <= i < stoppers.len() ==> if some_wants_stop(stoppers, i, stats) {
            after[i] == stoppers[i]
        } else {
            stoppers[i].asked(stats, &after[i])
        }
}

/// The hints of the first `k` conditions, up to the one that wants to stop.
pub open spec fn chained_hints<T: SearchStopper>(
    stoppers: Seq<Stopper<T>>,
    k: int,
    stats: IterationStats,
    hints: StoppersHints,
) -> StoppersHints
    decreases k,
{
    if k <= 0 {
        hints
    } else {
        let before = chained_hints(stoppers, k - 1, stats, hints);
        if some_wants_stop(stoppers, k - 1, stats) {
            before
        } else {
            stoppers[k - 1].hinted(stats, before)
        }
    }
}

proof fn lemma_stop_found<T: SearchStopper>(
    stoppers: Seq<Stopper<T>>,
    k: int,
    to: int,
    stats: IterationStats,
    hints: StoppersHints,
)
    requires
        0 <= k <= to,
        some_wants_stop(stoppers, k, stats),
    ensures
        some_wants_stop(stoppers, to, stats),
        chained_hints(stoppers, to, stats, hints) == chained_hints(stoppers, k, stats, hints),
    decreases to - k,
{
    if k < to {
        lemma_stop_found(stoppers, k, to - 1, stats, hints);
    }
}

/// However often a chain of the library's own conditions is asked, it keeps its limits.
pub proof fn law_own_conditions_stay(
    stoppers: Seq<Stopper<TimeLimitStopper>>,
    after: Seq<Stopper<TimeLimitStopper>>,
    stats: IterationStats,
)
    requires
        all_asked(stoppers, after, stats),
    ensures
        after == stoppers,
{
    assert forall|i: int| 0 <= i < stoppers.len() implies after[i] == stoppers[i] by {
        assert(some_wants_stop(stoppers, i, stats) || stoppers[i].asked(stats, &after[i]));
    }
    assert(after =~= stoppers);
}

impl<T: SearchStopper> ChainedSearchStopper<T> {
    /// A chain without conditions.
    pub fn new() -> (r: Self)
        ensures
            r.stoppers@.len() == 0,
    {
        ChainedSearchStopper { stoppers: Vec::new() }
    }

    /// Adds a condition at the end.
    pub fn add(&mut self, stopper: Stopper<T>)
        ensures
            final(self).stoppers@ == old(self).stoppers@.push(stopper),
    {
        self.stoppers.push(stopper);
    }

    pub fn is_empty(&self) -> (r: bool)
        ensures
            r == (self.stoppers@.len() == 0),
    {
        self.stoppers.is_empty()
    }
}

impl<T: SearchStopper> Default for ChainedSearchStopper<T> {
    fn default() -> (r: Self)
        ensures
            r.stoppers@.len() == 0,
    {
        ChainedSearchStopper::new()
    }
}

impl<T: SearchStopper> SearchStopper for ChainedSearchStopper<T> {
    open spec fn can_judge(&self, stats: IterationStats) -> bool {
        all_can_judge(self.stoppers@, stats)
    }

    open spec fn wants_stop(&self, stats: IterationStats) -> bool {
        some_wants_stop(self.stoppers@, self.stoppers@.len() as int, stats)
    }

    open spec fn hinted(&self, stats: IterationStats, hints: StoppersHints) -> StoppersHints {
        chained_hints(self.stoppers@, self.stoppers@.len() as int, stats, hints)
    }

    open spec fn asked(&self, stats: IterationStats, after: &Self) -> bool {
        all_asked(self.stoppers@, after.stoppers@, stats)
    }

    open spec fn told_done(&self, stats: IterationStats, after: &Self) -> bool {
        all_told_done(self.stoppers@, after.stoppers@, stats)
    }

    fn should_stop(&mut self, stats: &IterationStats, hints: &mut StoppersHints) -> (r: bool) {
        let ghost before = self.stoppers@;
        let ghost first_hints = *hints;
        let mut i: usize = 0;
        let mut stop: bool = false;
        while i < self.stoppers.len() && !stop
            invariant
                i <= self.stoppers@.len(),
                self.stoppers@.len() == before.len(),
                before == old(self).stoppers@,
                all_can_judge(before, *stats),
                stop == some_wants_stop(before, i as int, *stats),
                *hints == chained_hints(before, i as int, *stats, first_hints),
                forall|k: int| 0 <= k < i ==> !#[trigger] some_wants_stop(before, k, *stats),
                forall|k: int|
                    0 <= k < i ==> (#[trigger] before[k]).asked(*stats, &self.stoppers@[k]),
                forall|k: int| i <= k < before.len() ==> #[trigger] self.stoppers@[k] == before[k],
            decreases before.len() - i,
        {
            assert(self.stoppers@[i as int] == before[i as int]);
            assert(!some_wants_stop(before, i as int, *stats));
            stop = self.stoppers[i].should_stop(stats, hints);
            i += 1;
        }
        proof {
            if stop {
                lemma_stop_found(before, i as int, before.len() as int, *stats, first_hints);
                assert forall|k: int| i <= k < before.len() implies some_wants_stop(
                    before,
                    k,
                    *stats,
                ) by {
                    lemma_stop_found(before, i as int, k, *stats, first_hints);
                }
            }
        }
        stop
    }

    fn on_search_done(&mut self, stats: &IterationStats) {
        let ghost before = self.stoppers@;
        let mut i: usize = 0;
        while i < self.stoppers.len()
            invariant
                i <= self.stoppers@.len(),
                self.stoppers@.len() == before.len(),
                before == old(self).stoppers@,
                forall|k: int|
                    0 <= k < i ==> (#[trigger] before[k]).told_done(*stats, &self.stoppers@[k]),
                forall|k: int| i <= k < before.len() ==> #[trigger] self.stoppers@[k] == before[k],
            decreases self.stoppers@.len() - i,
        {
            assert(self.stoppers@[i as int] == before[i as int]);
            self.stoppers[i].on_search_done(stats);
            i += 1;
        }
    }
}

/// Stops once the tree holds so many nodes.
#[derive(Clone, Copy, Debug)]
pub struct VisitsStopper {
    pub nodes_limit: i64,
    pub populate_remaining_playouts: bool,
}

impl VisitsStopper {
    pub fn new(nodes_limit: i64, populate_remaining_playouts: bool) -> (r: Self)
        ensures
            r.nodes_limit == nodes_limit,
            r.populate_remaining_playouts == populate_remaining_playouts,
    {
        VisitsStopper { nodes_limit, populate_remaining_playouts }
    }
}

impl SearchStopper for VisitsStopper {
    open spec fn can_judge(&self, stats: IterationStats) -> bool {
        self.populate_remaining_playouts ==> i64::MIN <= self.nodes_limit - stats.total_nodes
            <= i64::MAX
    }

    open spec fn wants_stop(&self, stats: IterationStats) -> bool {
        stats.total_nodes >= self.nodes_limit
    }

    open spec fn hinted(&self, stats: IterationStats, hints: StoppersHints) -> StoppersHints {
        if self.populate_remaining_playouts {
            hints.with_playouts((self.nodes_limit - stats.total_nodes) as i64)
        } else {
            hints
        }
    }

    /// Nothing changes.
    open spec fn asked(&self, _stats: IterationStats, after: &Self) -> bool {
        *after == *self
    }

    /// Nothing changes.
    open spec fn told_done(&self, _stats: IterationStats, after: &Self) -> bool {
        *after == *self
    }

    fn should_stop(&mut self, stats: &IterationStats, hints: &mut StoppersHints) -> (r: bool) {
        if self.populate_remaining_playouts {
            hints.update_estimated_remaining_playouts(self.nodes_limit - stats.total_nodes);
        }
        stats.total_nodes >= self.nodes_limit
    }

    fn on_search_done(&mut self, _stats: &IterationStats) {
    }
}

/// Stops once the search has added so many nodes.
#[derive(Clone, Copy, Debug)]
pub struct PlayoutsStopper {
    pub nodes_limit: i64,
    pub populate_remaining_playouts: bool,
}

impl PlayoutsStopper {
    pub fn new(nodes_limit: i64, populate_remaining_playouts: bool) -> (r: Self)
        ensures
            r.nodes_limit == nodes_limit,
            r.populate_remaining_playouts == populate_remaining_playouts,
    {
        PlayoutsStopper { nodes_limit, populate_remaining_playouts }
    }
}

impl SearchStopper for PlayoutsStopper {
    open spec fn can_judge(&self, stats: IterationStats) -> bool {
        self.populate_remaining_playouts ==> i64::MIN <= self.nodes_limit
            - stats.nodes_since_movestart <= i64::MAX
    }

    open spec fn wants_stop(&self, stats: IterationStats) -> bool {
        stats.nodes_since_movestart >= self.nodes_limit
    }

    open spec fn hinted(&self, stats: IterationStats, hints: StoppersHints) -> StoppersHints {
        if self.populate_remaining_playouts {
            hints.with_playouts((self.nodes_limit - stats.nodes_since_movestart) as i64)
        } else {
            hints
        }
    }

    /// Nothing changes.
    open spec fn asked(&self, _stats: IterationStats, after: &Self) -> bool {
        *after == *self
    }

    /// Nothing changes.
    open spec fn told_done(&self, _stats: IterationStats, after: &Self) -> bool {
        *after == *self
    }

    fn should_stop(&mut self, stats: &IterationStats, hints: &mut StoppersHints) -> (r: bool) {
        if self.populate_remaining_playouts {
            hints.update_estimated_remaining_playouts(
                self.nodes_limit - stats.nodes_since_movestart,
            );
        }
        stats.nodes_since_movestart >= self.nodes_limit
    }

    fn on_search_done(&mut self, _stats: &IterationStats) {
    }
}

/// Stops once the time is up. A tree kept from an earlier move may stop before any
/// new playout.
#[derive(Clone, Copy, Debug)]
pub struct TimeLimitStopper {
    pub time_limit_ms: i64,
}

impl TimeLimitStopper {
    pub fn new(time_limit_ms: i64) -> (r: Self)
        ensures
            r.time_limit_ms == time_limit_ms,
    {
        TimeLimitStopper { time_limit_ms }
    }

    pub fn time_limit_ms(&self) -> (r: i64)
        ensures
            r == self.time_limit_ms,
    {
        self.time_limit_ms
    }
}

impl SearchStopper for TimeLimitStopper {
    open spec fn can_judge(&self, stats: IterationStats) -> bool {
        i64::MIN <= self.time_limit_ms - stats.time_since_movestart <= i64::MAX
    }

    open spec fn wants_stop(&self, stats: IterationStats) -> bool {
        stats.time_since_movestart >= self.time_limit_ms
    }

    open spec fn hinted(&self, stats: IterationStats, hints: StoppersHints) -> StoppersHints {
        hints.with_time((self.time_limit_ms - stats.time_since_movestart) as i64)
    }

    /// Nothing changes.
    open spec fn asked(&self, _stats: IterationStats, after: &Self) -> bool {
        *after == *self
    }

    /// Nothing changes.
    open spec fn told_done(&self, _stats: IterationStats, after: &Self) -> bool {
        *after == *self
    }

    fn should_stop(&mut self, stats: &IterationStats, hints: &mut StoppersHints) -> (r: bool) {
        hints.update_estimated_remaining_time_ms(self.time_limit_ms - stats.time_since_movestart);
        stats.time_since_movestart >= self.time_limit_ms
    }

    fn on_search_done(&mut self, _stats: &IterationStats) {
    }
}

/// The size at which a tree stops growing whatever was asked for.
pub const MAX_VISITS: i64 = 4_000_000_000;

/// The limit on the nodes of the tree that a command sets.
pub open spec fn visit_limit(params: GoParams, nodes_as_playouts: bool) -> i64 {
    match params.nodes {
        Some(nodes) => if nodes_as_playouts {
            MAX_VISITS
        } else {
            nodes as i64
        },
        None => MAX_VISITS,
    }
}

/// Whether a command's own limits want a search to stop, besides what the time
/// manager wants.
pub open spec fn command_wants_stop(
    params: GoParams,
    nodes_as_playouts: bool,
    move_overhead_ms: i64,
    stats: IterationStats,
) -> bool {
    ||| (nodes_as_playouts && params.nodes is Some && stats.nodes_since_movestart
        >= params.nodes->Some_0)
    ||| stats.total_nodes >= visit_limit(params, nodes_as_playouts)
    ||| (!params.infinite && params.movetime is Some && stats.time_since_movestart
        >= params.movetime->Some_0 - move_overhead_ms)
}

/// The conditions of a command, in the order in which they are asked.
pub open spec fn command_stoppers<T>(
    params: GoParams,
    nodes_as_playouts: bool,
    move_overhead_ms: i64,
    time_manager_stopper: Option<T>,
) -> Seq<Stopper<T>> {
    let managed = match time_manager_stopper {
        Some(stopper) => seq![Stopper::Other(stopper)],
        None => Seq::empty(),
    };
    let counted = if nodes_as_playouts && params.nodes is Some {
        managed.push(
            Stopper::Playouts(
                PlayoutsStopper {
                    nodes_limit: params.nodes->Some_0 as i64,
                    populate_remaining_playouts: true,
                },
            ),
        )
    } else {
        managed
    };
    let visited = counted.push(
        Stopper::Visits(
            VisitsStopper {
                nodes_limit: visit_limit(params, nodes_as_playouts),
                populate_remaining_playouts: true,
            },
        ),
    );
    if !params.infinite && params.movetime is Some {
        visited.push(
            Stopper::TimeLimit(
                TimeLimitStopper {
                    time_limit_ms: (params.movetime->Some_0 - move_overhead_ms) as i64,
                },
            ),
        )
    } else {
        visited
    }
}

/// Builds the conditions for a command: that of the time manager first, then the
/// node limits, then the time limit, which an infinite search has none of.
pub fn build_search_stoppers<T: SearchStopper>(
    params: &GoParams,
    nodes_as_playouts: bool,
    move_overhead_ms: i64,
    time_manager_stopper: Option<T>,
) -> (r: ChainedSearchStopper<T>)
    requires
        !params.infinite && params.movetime is Some ==> i64::MIN <= params.movetime->Some_0
            - move_overhead_ms <= i64::MAX,
    ensures
        r.stoppers@ == command_stoppers(
            *params,
            nodes_as_playouts,
            move_overhead_ms,
            time_manager_stopper,
        ),
        forall|stats: IterationStats| #[trigger]
            r.wants_stop(stats) == ((time_manager_stopper matches Some(stopper)
                && stopper.wants_stop(stats)) || command_wants_stop(
                *params,
                nodes_as_playouts,
                move_overhead_ms,
                stats,
            )),
{
    let mut chain: ChainedSearchStopper<T> = ChainedSearchStopper::new();
    match time_manager_stopper {
        Some(stopper) => {
            chain.add(Stopper::Other(stopper));
        },
        None => {},
    }
    let ghost managed = chain.stoppers@;
    let mut limit: i64 = MAX_VISITS;
    match params.nodes {
        Some(nodes) => {
            if nodes_as_playouts {
                chain.add(Stopper::Playouts(PlayoutsStopper::new(nodes as i64, true)));
            } else {
                limit = nodes as i64;
            }
        },
        None => {},
    }
    let ghost counted = chain.stoppers@;
    chain.add(Stopper::Visits(VisitsStopper::new(limit, true)));
    let ghost visited = chain.stoppers@;
    if !params.infinite {
        match params.movetime {
            Some(movetime) => {
                chain.add(Stopper::TimeLimit(TimeLimitStopper::new(movetime - move_overhead_ms)));
            },
            None => {},
        }
    }
    proof {
        assert forall|stats: IterationStats| #[trigger]
            chain.wants_stop(stats) == ((time_manager_stopper matches Some(stopper)
                && stopper.wants_stop(stats)) || command_wants_stop(
                *params,
                nodes_as_playouts,
                move_overhead_ms,
                stats,
            )) by {
            let all = chain.stoppers@;
            lemma_prefix_same(all, managed, managed.len() as int, stats);
            lemma_prefix_same(all, counted, counted.len() as int, stats);
            lemma_prefix_same(all, visited, visited.len() as int, stats);
            reveal_with_fuel(some_wants_stop, 2);
        }
    }
    chain
}

proof fn lemma_prefix_same<T: SearchStopper>(
    a: Seq<Stopper<T>>,
    b: Seq<Stopper<T>>,
    k: int,
    stats: IterationStats,
)
    requires
        k <= a.len(),
        k <= b.len(),
        forall|i: int| 0 <= i < k ==> a[i] == b[i],
    ensures
        some_wants_stop(a, k, stats) == some_wants_stop(b, k, stats),
    decreases k,
{
    if k > 0 {
        lemma_prefix_same(a, b, k - 1, stats);
    }
}

/// The limits of a command stop a search once they are reached, and without a time manager
/// nothing else does: the nodes of the tree, those added by the search where nodes count as
/// playouts, the time for the move less the overhead unless the search is infinite, and in
/// any case four thousand million nodes.
pub proof fn law_command_limits_stop_when_reached<T: SearchStopper>(
    params: GoParams,
    nodes_as_playouts: bool,
    move_overhead_ms: i64,
    r: ChainedSearchStopper<T>,
    stats: IterationStats,
)
    requires
        call_ensures(
            build_search_stoppers::<T>,
            (&params, nodes_as_playouts, move_overhead_ms, None::<T>),
            r,
        ),
    ensures
        r.wants_stop(stats) <==> {
            ||| (params.nodes matches Some(nodes) && nodes_as_playouts
                && stats.nodes_since_movestart >= nodes)
            ||| (params.nodes matches Some(nodes) && !nodes_as_playouts && stats.total_nodes
                >= nodes)
            ||| (!(params.nodes is Some && !nodes_as_playouts) && stats.total_nodes >= 4_000_000_000)
            ||| (params.movetime matches Some(movetime) && !params.infinite
                && stats.time_since_movestart + move_overhead_ms >= movetime)
        },
{
}

} // verus!
