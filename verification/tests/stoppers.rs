use xiangqi_search::classic::params::ContemptMode;
use xiangqi_search::classic::search::resolve_contempt_mode;
use xiangqi_search::go_params::GoParams;
use xiangqi_search::graph::key::NodeKey;
use xiangqi_search::stoppers::stopper::{
    build_search_stoppers, ChainedSearchStopper, PlayoutsStopper, SearchStopper, Stopper,
    TimeLimitStopper, VisitsStopper,
};
use xiangqi_search::stoppers::timemgr::{IterationStats, StoppersHints};

fn chain(params: &GoParams) -> ChainedSearchStopper<TimeLimitStopper> {
    build_search_stoppers(params, false, 0, None)
}

#[test]
fn time_limit_stops_a_reused_tree_without_a_new_playout() {
    let mut stopper = TimeLimitStopper::new(0);
    let stats = IterationStats {
        total_nodes: 128,
        nodes_since_movestart: 0,
        ..IterationStats::default()
    };
    assert!(stopper.should_stop(&stats, &mut StoppersHints::default()));
}

#[test]
fn default_chain_keeps_the_px0_tree_visit_hard_cap() {
    let mut chain = chain(&GoParams::default());
    assert!(!chain.should_stop(
        &IterationStats { total_nodes: 3_999_999_999, ..IterationStats::default() },
        &mut StoppersHints::default(),
    ));
    assert!(chain.should_stop(
        &IterationStats { total_nodes: 4_000_000_000, ..IterationStats::default() },
        &mut StoppersHints::default(),
    ));
}

#[test]
fn zero_nodes_keeps_px0_immediate_visit_limit() {
    let mut chain = chain(&GoParams { nodes: Some(0), ..GoParams::default() });
    assert!(chain.should_stop(&IterationStats::default(), &mut StoppersHints::default()));
}

#[test]
fn infinite_go_ignores_movetime_like_px0() {
    let mut chain =
        chain(&GoParams { infinite: true, movetime: Some(0), ..GoParams::default() });
    assert!(!chain.should_stop(
        &IterationStats { total_nodes: 1, time_since_movestart: 1_000, ..IterationStats::default() },
        &mut StoppersHints::default(),
    ));
}

#[test]
fn hints_match_px0_reset_and_minimum_updates() {
    let mut hints = StoppersHints::default();
    assert_eq!(hints.estimated_remaining_time_ms(), 100_000_000_000);
    assert_eq!(hints.estimated_remaining_playouts(), 4_000_000_000);

    hints.update_estimated_remaining_playouts(64);
    hints.update_estimated_remaining_playouts(128);
    assert_eq!(hints.estimated_remaining_playouts(), 64);

    hints.update_estimated_remaining_playouts(-10);
    assert_eq!(hints.estimated_remaining_playouts(), 1);
    hints.reset();
    assert_eq!(hints.estimated_remaining_playouts(), 4_000_000_000);
}

#[test]
fn time_hints_keep_the_minimum() {
    let mut hints = StoppersHints::default();
    hints.update_estimated_remaining_time_ms(500);
    hints.update_estimated_remaining_time_ms(900);
    assert_eq!(hints.estimated_remaining_time_ms(), 500);
    hints.update_estimated_remaining_time_ms(-3);
    assert_eq!(hints.estimated_remaining_time_ms(), -3);
}

#[test]
fn a_chain_stops_where_one_condition_does() {
    let mut chain: ChainedSearchStopper<TimeLimitStopper> = ChainedSearchStopper::new();
    assert!(chain.is_empty());
    chain.add(Stopper::Visits(VisitsStopper::new(100, true)));
    chain.add(Stopper::Playouts(PlayoutsStopper::new(10, true)));
    chain.add(Stopper::Other(TimeLimitStopper::new(50)));
    assert!(!chain.is_empty());
    let mut hints = StoppersHints::default();
    let stats = IterationStats {
        total_nodes: 60,
        nodes_since_movestart: 4,
        time_since_movestart: 20,
        ..IterationStats::default()
    };
    assert!(!chain.should_stop(&stats, &mut hints));
    assert_eq!(hints.estimated_remaining_playouts(), 6);
    assert_eq!(hints.estimated_remaining_time_ms(), 30);
    let late = IterationStats { time_since_movestart: 50, ..stats };
    assert!(chain.should_stop(&late, &mut hints));
    let full = IterationStats { nodes_since_movestart: 10, ..stats };
    assert!(chain.should_stop(&full, &mut hints));
}

#[test]
fn nodes_count_as_playouts_on_request() {
    let params = GoParams { nodes: Some(5), ..GoParams::default() };
    let reused = IterationStats {
        total_nodes: 1_000,
        nodes_since_movestart: 4,
        ..IterationStats::default()
    };
    let mut visits: ChainedSearchStopper<TimeLimitStopper> =
        build_search_stoppers(&params, false, 0, None);
    assert!(visits.should_stop(&reused, &mut StoppersHints::default()));
    let mut playouts: ChainedSearchStopper<TimeLimitStopper> =
        build_search_stoppers(&params, true, 0, None);
    assert!(!playouts.should_stop(&reused, &mut StoppersHints::default()));
}

#[test]
fn movetime_is_shortened_by_the_overhead() {
    let params = GoParams { movetime: Some(1_000), ..GoParams::default() };
    let mut chain: ChainedSearchStopper<TimeLimitStopper> =
        build_search_stoppers(&params, false, 200, Some(TimeLimitStopper::new(5_000)));
    let at = |time_since_movestart| IterationStats { time_since_movestart, ..IterationStats::default() };
    assert!(!chain.should_stop(&at(799), &mut StoppersHints::default()));
    assert!(chain.should_stop(&at(800), &mut StoppersHints::default()));
}

#[test]
fn play_contempt_resolves_like_px0_start_search() {
    assert_eq!(resolve_contempt_mode(ContemptMode::Play, true, false, false), ContemptMode::Disable);
    assert_eq!(resolve_contempt_mode(ContemptMode::Play, false, false, false), ContemptMode::White);
    assert_eq!(resolve_contempt_mode(ContemptMode::Play, false, true, false), ContemptMode::Black);
    assert_eq!(resolve_contempt_mode(ContemptMode::Play, false, false, true), ContemptMode::Black);
}

#[test]
fn configured_contempt_stays() {
    assert_eq!(resolve_contempt_mode(ContemptMode::White, true, true, true), ContemptMode::White);
    assert_eq!(resolve_contempt_mode(ContemptMode::Black, false, false, false), ContemptMode::Black);
    assert_eq!(resolve_contempt_mode(ContemptMode::Disable, false, true, false), ContemptMode::Disable);
}

#[test]
fn graph_and_tree_keys_keep_their_identity_separate() {
    let graph = NodeKey::board(42);
    let first_tree = NodeKey::continuation(42, 1);
    let second_tree = NodeKey::continuation(42, 2);

    assert!(matches!(graph, NodeKey::GraphNode { .. }));
    assert!(matches!(first_tree, NodeKey::TreeNode { .. }));
    assert_ne!(graph, first_tree);
    assert_ne!(first_tree, second_tree);
}

/// A condition that counts how often it was asked, and told that the search is over.
#[derive(Debug, Default)]
struct EndCounter {
    asked: u32,
    stops: bool,
    told: u32,
    last_nodes: i64,
}

impl SearchStopper for EndCounter {
    fn can_judge(&self, _stats: IterationStats) -> bool {
        true
    }

    fn wants_stop(&self, _stats: IterationStats) -> bool {
        self.stops
    }

    fn hinted(&self, _stats: IterationStats, hints: StoppersHints) -> StoppersHints {
        hints
    }

    fn asked(&self, _stats: IterationStats, after: &Self) -> bool {
        after.asked == self.asked + 1 && after.stops == self.stops
    }

    fn told_done(&self, stats: IterationStats, after: &Self) -> bool {
        after.told == self.told + 1 && after.last_nodes == stats.total_nodes
    }

    fn should_stop(&mut self, _stats: &IterationStats, _hints: &mut StoppersHints) -> bool {
        self.asked += 1;
        self.stops
    }

    fn on_search_done(&mut self, stats: &IterationStats) {
        self.told += 1;
        self.last_nodes = stats.total_nodes;
    }
}

#[test]
fn the_end_is_told_to_every_condition_of_a_chain() {
    let mut chain: ChainedSearchStopper<EndCounter> = ChainedSearchStopper::new();
    chain.add(Stopper::Other(EndCounter::default()));
    chain.add(Stopper::Visits(VisitsStopper::new(100, true)));
    chain.add(Stopper::Other(EndCounter { told: 5, ..EndCounter::default() }));
    chain.on_search_done(&IterationStats { total_nodes: 42, ..IterationStats::default() });
    assert_eq!(chain.stoppers.len(), 3);
    let seen: Vec<(u32, i64)> = chain
        .stoppers
        .iter()
        .map(|stopper| match stopper {
            Stopper::Other(counter) => (counter.told, counter.last_nodes),
            Stopper::Visits(visits) => (0, visits.nodes_limit),
            _ => panic!("no other condition was added"),
        })
        .collect();
    assert_eq!(seen, vec![(1, 42), (0, 100), (6, 42)]);
}

#[test]
fn a_chain_asks_up_to_the_first_condition_that_wants_to_stop() {
    let counter = |stops| Stopper::Other(EndCounter { stops, ..EndCounter::default() });
    let mut chain: ChainedSearchStopper<EndCounter> = ChainedSearchStopper::new();
    chain.add(counter(false));
    chain.add(Stopper::Visits(VisitsStopper::new(100, true)));
    chain.add(counter(true));
    chain.add(counter(false));
    let mut hints = StoppersHints::default();
    let stats = IterationStats { total_nodes: 60, ..IterationStats::default() };
    assert!(chain.should_stop(&stats, &mut hints));
    assert!(chain.should_stop(&stats, &mut hints));
    assert_eq!(hints.estimated_remaining_playouts(), 40);
    let asked: Vec<u32> = chain
        .stoppers
        .iter()
        .map(|stopper| match stopper {
            Stopper::Other(counter) => counter.asked,
            Stopper::Visits(visits) => visits.nodes_limit as u32,
            _ => panic!("no other condition was added"),
        })
        .collect();
    assert_eq!(asked, vec![2, 100, 2, 0]);
    assert!(!chain.is_empty());
}

#[test]
fn limits_stay_after_they_were_asked() {
    let stats = IterationStats {
        total_nodes: 200,
        nodes_since_movestart: 200,
        time_since_movestart: 200,
        ..IterationStats::default()
    };
    let mut hints = StoppersHints::default();
    let mut visits = VisitsStopper::new(100, true);
    let mut playouts = PlayoutsStopper::new(100, false);
    let mut time = TimeLimitStopper::new(-5);
    for _ in 0..3 {
        assert!(visits.should_stop(&stats, &mut hints));
        assert!(playouts.should_stop(&stats, &mut hints));
        assert!(time.should_stop(&stats, &mut hints));
    }
    assert_eq!((visits.nodes_limit, visits.populate_remaining_playouts), (100, true));
    assert_eq!((playouts.nodes_limit, playouts.populate_remaining_playouts), (100, false));
    assert_eq!(time.time_limit_ms(), -5);
}

fn described(
    params: &GoParams,
    nodes_as_playouts: bool,
    managed: Option<TimeLimitStopper>,
) -> Vec<(&'static str, i64, bool)> {
    build_search_stoppers(params, nodes_as_playouts, 200, managed)
        .stoppers
        .iter()
        .map(|stopper| match stopper {
            Stopper::Visits(visits) => ("visits", visits.nodes_limit, visits.populate_remaining_playouts),
            Stopper::Playouts(playouts) => {
                ("playouts", playouts.nodes_limit, playouts.populate_remaining_playouts)
            }
            Stopper::TimeLimit(time) => ("time", time.time_limit_ms, false),
            Stopper::Other(time) => ("manager", time.time_limit_ms, false),
        })
        .collect()
}

#[test]
fn a_command_builds_its_conditions_in_order() {
    let go = GoParams { nodes: Some(0), movetime: Some(1_000), ..GoParams::default() };
    assert_eq!(
        described(&go, true, Some(TimeLimitStopper::new(70))),
        vec![("manager", 70, false), ("playouts", 0, true), ("visits", 4_000_000_000, true), ("time", 800, false)]
    );
    assert_eq!(described(&go, false, None), vec![("visits", 0, true), ("time", 800, false)]);
    let infinite = GoParams { infinite: true, ..go };
    assert_eq!(described(&infinite, false, None), vec![("visits", 0, true)]);
    assert_eq!(described(&GoParams::default(), true, None), vec![("visits", 4_000_000_000, true)]);
}
