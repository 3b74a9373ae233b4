use xiangqi_search::classic::stoppers::stoppers::{
    build_search_stoppers, ChainedSearchStopper, SearchStopper, Stopper, TimeLimitStopper,
    VisitsStopper,
};
use xiangqi_search::classic::stoppers::timemgr::{IterationStats, StoppersHints};
use xiangqi_search::go_params::GoParams;

/// A condition that counts how often it was asked, and told that the search is over.
#[derive(Debug, Default)]
struct EndCounter {
    asked: u32,
    stops: bool,
    told: u32,
    last_nodes: i64,
}

impl SearchStopper for EndCounter {
    fn can_judge(&self, _stats: IterationStats) -> bool {
        true
    }

    fn wants_stop(&self, _stats: IterationStats) -> bool {
        self.stops
    }

    fn hinted(&self, _stats: IterationStats, hints: StoppersHints) -> StoppersHints {
        hints
    }

    fn asked(&self, _stats: IterationStats, after: &Self) -> bool {
        after.asked == self.asked + 1 && after.stops == self.stops
    }

    fn told_done(&self, stats: IterationStats, after: &Self) -> bool {
        after.told == self.told + 1 && after.last_nodes == stats.total_nodes
    }

    fn should_stop(&mut self, _stats: &IterationStats, _hints: &mut StoppersHints) -> bool {
        self.asked += 1;
        self.stops
    }

    fn on_search_done(&mut self, stats: &IterationStats) {
        self.told += 1;
        self.last_nodes = stats.total_nodes;
    }
}

#[test]
fn a_chain_of_the_tree_search_tells_the_end_to_every_condition() {
    let mut chain: ChainedSearchStopper<EndCounter> = ChainedSearchStopper::new();
    chain.add(Stopper::Other(EndCounter::default()));
    chain.add(Stopper::Visits(VisitsStopper::new(100, true)));
    chain.add(Stopper::Other(EndCounter { told: 5, ..EndCounter::default() }));
    chain.on_search_done(&IterationStats { total_nodes: 42, ..IterationStats::default() });
    assert_eq!(chain.stoppers.len(), 3);
    let seen: Vec<(u32, i64)> = chain
        .stoppers
        .iter()
        .map(|stopper| match stopper {
            Stopper::Other(counter) => (counter.told, counter.last_nodes),
            Stopper::Visits(visits) => (0, visits.nodes_limit),
            _ => panic!("no other condition was added"),
        })
        .collect();
    assert_eq!(seen, vec![(1, 42), (0, 100), (6, 42)]);
}

#[test]
fn a_chain_of_the_tree_search_asks_up_to_the_first_condition_that_wants_to_stop() {
    let counter = |stops| Stopper::Other(EndCounter { stops, ..EndCounter::default() });
    let mut chain: ChainedSearchStopper<EndCounter> = ChainedSearchStopper::new();
    chain.add(counter(false));
    chain.add(Stopper::Visits(VisitsStopper::new(100, true)));
    chain.add(counter(true));
    chain.add(counter(false));
    let mut hints = StoppersHints::default();
    let stats = IterationStats { total_nodes: 60, ..IterationStats::default() };
    assert!(chain.should_stop(&stats, &mut hints));
    assert!(chain.should_stop(&stats, &mut hints));
    assert_eq!(hints.estimated_remaining_playouts(), 40);
    let asked: Vec<u32> = chain
        .stoppers
        .iter()
        .map(|stopper| match stopper {
            Stopper::Other(counter) => counter.asked,
            Stopper::Visits(visits) => visits.nodes_limit as u32,
            _ => panic!("no other condition was added"),
        })
        .collect();
    assert_eq!(asked, vec![2, 100, 2, 0]);
    assert!(!chain.is_empty());
}

fn described(
    params: &GoParams,
    nodes_as_playouts: bool,
    managed: Option<TimeLimitStopper>,
) -> Vec<(&'static str, i64, bool)> {
    build_search_stoppers(params, nodes_as_playouts, 200, managed)
        .stoppers
        .iter()
        .map(|stopper| match stopper {
            Stopper::Visits(visits) => ("visits", visits.nodes_limit, visits.populate_remaining_playouts),
            Stopper::Playouts(playouts) => {
                ("playouts", playouts.nodes_limit, playouts.populate_remaining_playouts)
            }
            Stopper::TimeLimit(time) => ("time", time.time_limit_ms, false),
            Stopper::Other(time) => ("manager", time.time_limit_ms, false),
        })
        .collect()
}

#[test]
fn a_command_of_the_tree_search_builds_its_conditions_in_order() {
    let go = GoParams { nodes: Some(5), movetime: Some(0), ..GoParams::default() };
    assert_eq!(
        described(&go, true, Some(TimeLimitStopper::new(70))),
        vec![("manager", 70, false), ("playouts", 5, true), ("time", -200, false)]
    );
    assert_eq!(described(&go, false, None), vec![("visits", 5, true), ("time", -200, false)]);
    let senseless = GoParams { nodes: Some(0), movetime: Some(-1), ..GoParams::default() };
    assert!(build_search_stoppers::<TimeLimitStopper>(&senseless, false, 200, None).is_empty());
    assert!(build_search_stoppers::<TimeLimitStopper>(&GoParams::default(), false, 200, None).is_empty());
}
