use xiangqi_search::error::EnginError;
use xiangqi_search::params;
use xiangqi_search::position::{GameResult, Move};
use xiangqi_search::scalar::{Fixed, Scalar};
use xiangqi_search::stream::backprop::{complete_batch, complete_one};
use xiangqi_search::stream::decision::{
    best_mate_with_params, best_move, best_move_filtered_with_params, best_move_with_params,
    principal_variation, root_stats, root_variations,
};
use xiangqi_search::stream::evaluate::EvalOutcome;
use xiangqi_search::stream::event::{BackpropEvent, Event};
use xiangqi_search::stream::expand::{classify_expand, terminal_wl_for_node, ExpandKind};
use xiangqi_search::stream::observer::{
    BenchObserver, InstantQueueStamp, NoQueueStamp, QueueKind, QueueMetrics, QueueStamp,
    SearchObserver,
};
use xiangqi_search::stream::param::{DecisionRule, SearchConfig, SearchParams};
use xiangqi_search::stream::publish::{EvalEvent, Evaluation, ExpandOutcome};
use xiangqi_search::stream::run::{dispatch_limit, RunStep, SearchLimits, WaitDecision};
use xiangqi_search::stream::select::{
    action_q, select_edge, variance_bonus_from_se, visited_policy,
};
use xiangqi_search::stream::shared::Shared;
use xiangqi_search::stream::tree::{Edge, ExpansionState, NodeArena};
use xiangqi_search::stream::walk::SelectOutcome;

#[derive(Clone, Copy, Debug, PartialEq)]
struct F32(f32);

impl Scalar for F32 {
    fn zero() -> Self {
        F32(0.0)
    }
    fn spec_zero() -> Self {
        Self::zero()
    }
    fn one() -> Self {
        F32(1.0)
    }
    fn spec_one() -> Self {
        Self::one()
    }
    fn count(n: u32) -> Self {
        F32(n as f32)
    }
    fn spec_count(n: u32) -> Self {
        Self::count(n)
    }
    fn integer(n: i64) -> Self {
        F32(n as f32)
    }
    fn spec_integer(n: i64) -> Self {
        Self::integer(n)
    }
    fn from_bits(bits: u32) -> Self {
        F32(f32::from_bits(bits))
    }
    fn spec_from_bits(bits: u32) -> Self {
        Self::from_bits(bits)
    }
    fn plus(self, other: Self) -> Self {
        F32(self.0 + other.0)
    }
    fn spec_plus(self, other: Self) -> Self {
        self.plus(other)
    }
    fn minus(self, other: Self) -> Self {
        F32(self.0 - other.0)
    }
    fn spec_minus(self, other: Self) -> Self {
        self.minus(other)
    }
    fn times(self, other: Self) -> Self {
        F32(self.0 * other.0)
    }
    fn spec_times(self, other: Self) -> Self {
        self.times(other)
    }
    fn over(self, other: Self) -> Self {
        F32(self.0 / other.0)
    }
    fn spec_over(self, other: Self) -> Self {
        self.over(other)
    }
    fn negated(self) -> Self {
        F32(-self.0)
    }
    fn spec_negated(self) -> Self {
        self.negated()
    }
    fn root(self) -> Self {
        F32(self.0.sqrt())
    }
    fn spec_root(self) -> Self {
        self.root()
    }
    fn log(self) -> Self {
        F32(self.0.ln())
    }
    fn spec_log(self) -> Self {
        self.log()
    }
    fn above(self, other: Self) -> bool {
        self.0 > other.0
    }
    fn spec_above(self, other: Self) -> bool {
        self.above(other)
    }
    fn same(self, other: Self) -> bool {
        self.0 == other.0
    }
    fn spec_same(self, other: Self) -> bool {
        self.same(other)
    }
    fn total_key(self) -> i64 {
        let bits = self.0.to_bits() as i32;
        (bits ^ (((bits >> 31) as u32) >> 1) as i32) as i64
    }
    fn spec_total_key(self) -> i64 {
        self.total_key()
    }
    fn floor_count(self) -> u32 {
        self.0.floor() as u32
    }
    fn spec_floor_count(self) -> u32 {
        self.floor_count()
    }
    fn rounded(self) -> i32 {
        self.0.round() as i32
    }
    fn spec_rounded(self) -> i32 {
        self.rounded()
    }
    fn truncated(self) -> i64 {
        self.0 as i64
    }
    fn spec_truncated(self) -> i64 {
        self.truncated()
    }
}

type Arena = NodeArena<F32>;
type Params = SearchParams<F32>;

fn square(name: &str) -> u8 {
    let bytes = name.as_bytes();
    (bytes[1] - b'0') * 9 + (bytes[0] - b'a')
}

fn mv(from: &str, to: &str) -> Move {
    Move { from: square(from), to: square(to) }
}

fn near(value: F32, expected: f32) -> bool {
    (value.0 - expected).abs() < 1e-6
}

fn expanded(arena: &mut Arena, id: usize, edges: &[(Move, f32)]) {
    let node = arena.node_mut(id);
    assert!(node.try_claim());
    node.publish_edges(&edges.iter().map(|&(mv, prior)| (mv, F32(prior))).collect());
}

fn root_with(edges: &[(Move, f32)]) -> (Arena, usize) {
    let mut arena = Arena::default();
    let root = arena.allocate();
    expanded(&mut arena, root, edges);
    (arena, root)
}

fn complete_samples(arena: &mut Arena, node: usize, edge: usize, samples: &[f32]) {
    for &sample in samples {
        let reservation = arena.node_mut(node).reserve_edge(edge, F32(0.0)).expect("reservation");
        reservation.complete(arena.node_mut(node), F32(sample));
    }
}

fn edges(arena: &Arena, id: usize) -> &Vec<Edge<F32>> {
    arena.get(id).expect("node").edges()
}

fn selected(arena: &Arena, id: usize, params: &Params, filter: &[Move]) -> Option<usize> {
    select_edge(edges(arena, id), 0, F32(0.0), 0, params, &filter.to_vec()).map(|(index, _)| index)
}

fn edge_utility(edge: &Edge<F32>, fpu: f32) -> F32 {
    let (stats, started_visits) = edge.selection_snapshot();
    action_q(stats, started_visits, F32(fpu))
}

#[test]
fn backprop_backprop_completes_every_reservation_with_alternating_value() {
    let (mut arena, root) = root_with(&[(mv("b2", "b3"), 1.0)]);
    let child = arena.child_or_create(root, 0);
    let mut event = Event::at_root(root);
    event.descend(child, arena.node_mut(root).reserve_edge(0, F32(0.0)).expect("edge"));
    complete_one(
        &BackpropEvent::without_nn_credit(event, F32(0.4), F32(0.2), F32(2.0)),
        &mut arena,
    );

    let root_node = arena.get(root).expect("root node");
    let edge = &root_node.edges()[0];
    assert_eq!(edge.visits(), 1);
    assert_eq!(edge.completed_visits(), 1);
    assert!((edge.q().0 - 0.4).abs() < f32::EPSILON);
    assert_eq!(root_node.completed_visits(), 1);
    assert!((root_node.q().0 + 0.4).abs() < f32::EPSILON);
    assert!((root_node.m().0 - 3.0).abs() < f32::EPSILON);
    let child_node = arena.get(child).expect("child node");
    assert_eq!(child_node.completed_visits(), 1);
    assert!((child_node.q().0 - 0.4).abs() < f32::EPSILON);
    assert!((child_node.m().0 - 2.0).abs() < f32::EPSILON);
}

#[test]
fn a_batch_leaves_the_tree_as_its_lines_one_by_one() {
    let lines = |arena: &mut Arena| {
        let root = arena.allocate();
        expanded(arena, root, &[(mv("b2", "b3"), 0.5), (mv("c2", "c3"), 0.5)]);
        let mut events = Vec::new();
        for (edge, wl, plies) in [(0, 0.5, 1.0), (1, -0.25, 2.0), (0, 0.125, 4.0)] {
            let child = arena.child_or_create(root, edge);
            let mut event = Event::at_root(root);
            event.descend(child, arena.node_mut(root).reserve_edge(edge, F32(0.0)).expect("edge"));
            events.push(BackpropEvent::with_nn_credit(event, F32(wl), F32(0.25), F32(plies)));
        }
        events
    };
    let mut batched = Arena::default();
    let events = lines(&mut batched);
    let result = complete_batch(&events, &mut batched);
    assert_eq!(result.completed_playouts, 3);
    assert_eq!(result.completed_depth, 6);
    assert_eq!(result.max_depth, 2);

    let mut single = Arena::default();
    for event in lines(&mut single) {
        complete_one(&event, &mut single);
    }
    for id in 0..batched.len() {
        let (one, other) = (batched.get(id).expect("node"), single.get(id).expect("node"));
        assert_eq!(one.completed_visits(), other.completed_visits());
        assert_eq!(one.q(), other.q());
        assert_eq!(one.draw(), other.draw());
        assert_eq!(one.m(), other.m());
        for (a, b) in one.edges().iter().zip(other.edges()) {
            assert_eq!((a.visits(), a.completed_visits(), a.q()), (b.visits(), b.completed_visits(), b.q()));
        }
    }
}

#[test]
fn explicit_decision_rules_rank_completed_evidence_as_configured() {
    let first = mv("a0", "a1");
    let second = mv("b0", "b1");
    let third = mv("c0", "c1");
    let (mut arena, root) = root_with(&[(first, 0.4), (second, 0.3), (third, 0.3)]);
    complete_samples(&mut arena, root, 0, &[0.2; 4]);
    complete_samples(&mut arena, root, 1, &[0.6; 2]);
    complete_samples(&mut arena, root, 2, &[-1.0, 1.0]);

    let select = |rule, mix_weight| {
        best_move_with_params(
            &arena,
            root,
            false,
            &Params {
                decision_rule: rule,
                decision_mix_n_weight: F32(mix_weight),
                decision_lcb_stdevs: F32(1.0),
                decision_ucb_stdevs: F32(1.0),
                ..Params::default()
            },
        )
    };
    assert_eq!(select(DecisionRule::MaxN, 0.0), Some(first));
    assert_eq!(select(DecisionRule::MaxQ, 0.0), Some(second));
    assert_eq!(select(DecisionRule::Lcb, 0.0), Some(second));
    assert_eq!(select(DecisionRule::Ucb, 0.0), Some(third));
    assert_eq!(select(DecisionRule::MixNQ, 0.5), Some(second));
    assert_eq!(select(DecisionRule::MixNQ, 1.0), Some(first));
}

#[test]
fn auto_is_the_max_n_baseline() {
    let first = mv("a0", "a1");
    let second = mv("b0", "b1");
    let (mut arena, root) = root_with(&[(first, 0.5), (second, 0.5)]);
    complete_samples(&mut arena, root, 0, &[0.2, 0.2]);
    complete_samples(&mut arena, root, 1, &[1.0]);
    assert_eq!(best_move_with_params(&arena, root, false, &Params::default()), Some(first));
}

#[test]
fn reports_follow_the_ranking() {
    let first = mv("a0", "a1");
    let second = mv("b0", "b1");
    let (mut arena, root) = root_with(&[(first, 0.5), (second, 0.5)]);
    complete_samples(&mut arena, root, 0, &[0.25]);
    complete_samples(&mut arena, root, 1, &[0.5, 0.5]);
    let none: Vec<Move> = Vec::new();
    let reports = root_variations(&arena, root, false, &none, 5, &Params::default());
    assert_eq!(reports.len(), 2);
    assert_eq!((reports[0].pv.clone(), reports[0].wl), (vec![second], F32(0.5)));
    assert_eq!((reports[1].pv.clone(), reports[1].wl), (vec![first], F32(0.25)));
    assert_eq!(root_variations(&arena, root, false, &none, 1, &Params::default()).len(), 1);
    assert_eq!(
        best_move_filtered_with_params(&arena, root, true, &vec![first], &Params::default()),
        Some(mv("a9", "a8"))
    );
    assert_eq!(best_move_filtered_with_params(&arena, root, true, &vec![mv("i0", "i1")], &Params::default()), None);
    assert_eq!(principal_variation(&arena, root, false), vec![second]);
    let stats = root_stats(&arena, root).expect("root");
    assert_eq!(stats.edges[0].completed_visits, 1);
    assert_eq!(stats.edges[1].q, F32(0.5));
    assert!(root_stats(&arena, 99).is_none());
}

#[test]
fn a_proven_child_gives_the_mate_distance() {
    let (mut arena, root) = root_with(&[(mv("a0", "a1"), 1.0)]);
    let child = arena.child_or_create(root, 0);
    assert!(arena.node_mut(child).try_claim());
    arena.node_mut(child).mark_terminal(F32(1.0), F32(0.0), F32(3.0));
    complete_samples(&mut arena, root, 0, &[1.0]);
    assert_eq!(best_mate_with_params(&arena, root, &Vec::new(), &Params::default()), Some(2));
}

#[test]
fn expand_checkmated_side_to_move_is_a_terminal_win_for_the_incoming_edge() {
    assert!(matches!(
        classify_expand::<F32>(GameResult::WhiteWon, true),
        ExpandKind::Terminal { wl: F32(wl), draw: F32(draw), plies_left: F32(plies) }
            if wl == 1.0 && draw == 0.0 && plies == 0.0
    ));
}

#[test]
fn rule60_terminal_at_root() {
    assert!(matches!(
        classify_expand::<F32>(GameResult::Draw, false),
        ExpandKind::Terminal { wl: F32(wl), draw: F32(draw), plies_left: F32(plies) }
            if wl == 0.0 && draw == 1.0 && plies == 0.0
    ));
}

#[test]
fn expand_first_perpetual_check_cycle_remains_evaluable() {
    assert!(matches!(classify_expand::<F32>(GameResult::Undecided, false), ExpandKind::Evaluate));
}

#[test]
fn second_perpetual_check_cycle_is_rule_judge_terminal() {
    let (expected_wl, expected_draw) = terminal_wl_for_node::<F32>(GameResult::WhiteWon, false);
    assert_eq!((expected_wl, expected_draw), (F32(-1.0), F32(0.0)));
    assert!(matches!(
        classify_expand::<F32>(GameResult::WhiteWon, false),
        ExpandKind::Terminal { wl, draw, plies_left: F32(plies) }
            if wl == expected_wl && draw == expected_draw && plies == 0.0
    ));
}

#[test]
fn defaults_preserve_the_approved_x7_policy() {
    let params = params::SearchParams::<F32>::default();
    assert_eq!(params.cpuct, F32(1.0));
    assert_eq!(params.cpuct_base, F32(38_739.0));
    assert_eq!(params.cpuct_factor, F32(3.894));
    assert_eq!(params.fpu_reduction, F32(0.220));
    assert_eq!(params::compute_cpuct(params, 0), params.cpuct);
}

#[test]
fn params_zero_cpuct_factor_keeps_the_initial_value() {
    let params = params::SearchParams {
        cpuct: F32(1.25),
        cpuct_factor: F32(0.0),
        ..params::SearchParams::default()
    };
    assert_eq!(params::compute_cpuct(params, 10_000), F32(1.25));
}

fn shared(arena: Arena, started: usize) -> Shared<F32> {
    let mut shared = Shared::new(arena, Params::default(), Vec::new());
    for _ in 0..started {
        shared.start_playout();
    }
    shared
}

#[test]
fn terminal_select_backprops_its_exact_value() {
    let (mut arena, root) = root_with(&[(mv("b2", "b3"), 1.0)]);
    let terminal = arena.child_or_create(root, 0);
    assert!(arena.node_mut(terminal).try_claim());
    arena.node_mut(terminal).mark_terminal(F32(1.0), F32(0.0), F32(1.0));
    let mut event = Event::at_root(root);
    event.descend(terminal, arena.node_mut(root).reserve_edge(0, F32(0.0)).expect("reservation"));
    let mut shared = shared(arena, 1);

    assert!(matches!(shared.process_select_event(event), SelectOutcome::Completed));
    let edge = &edges(&shared.arena, root)[0];
    assert_eq!(edge.visits(), 1);
    assert_eq!(edge.completed_visits(), 1);
    assert_eq!(edge.q(), F32(1.0));
    assert_eq!(shared.arena.get(root).expect("root").completed_visits(), 1);
    assert_eq!(shared.outstanding, 0);
    assert_eq!(shared.completed, 1);
}

#[test]
fn select_claims_then_queues_an_expand_event() {
    let mut arena = Arena::default();
    let root = arena.allocate();
    let mut shared = shared(arena, 1);
    let outcome = shared.process_select_event(Event::at_root(root));
    assert_eq!(shared.arena.get(root).expect("root").expansion_state(), ExpansionState::Claimed);
    assert!(matches!(outcome, SelectOutcome::Expand(event) if event.node_id == root));
    assert_eq!(shared.outstanding, 1);
}

fn expand(shared: &mut Shared<F32>, root: usize) -> Event<F32> {
    match shared.process_select_event(Event::at_root(root)) {
        SelectOutcome::Expand(event) => event,
        other => panic!("no leaf was claimed: {other:?}"),
    }
}

fn evaluation(wl: f32, policies: &[f32]) -> Evaluation<F32> {
    Evaluation {
        wl: F32(wl),
        d: F32(0.0),
        plies_left: F32(10.0),
        policies: policies.iter().map(|&policy| F32(policy)).collect(),
    }
}

#[test]
fn search_drains_batched_playouts() {
    let mut arena = Arena::default();
    let root = arena.allocate();
    let mut shared = shared(arena, 0);
    let limits = SearchLimits { max_playouts: Some(64), ..SearchLimits::default() };
    let moves = vec![mv("a0", "a1"), mv("b0", "b1"), mv("c0", "c1")];
    let mut pending: Vec<EvalEvent<F32>> = Vec::new();
    let mut depth = 0;
    while shared.next_step(&limits, 0, root, 0, 4) != RunStep::Finish {
        match shared.next_step(&limits, 0, root, 0, 4) {
            RunStep::Finish => unreachable!(),
            RunStep::WaitBelow { .. } => {
                let rows = pending.iter().map(|_| Ok(evaluation(0.0, &[0.5, 0.3, 0.2]))).collect();
                shared.record_inference(pending.len() as u64);
                shared.handle_nn_reply_batch(std::mem::take(&mut pending), &rows).expect("reply");
                assert!(shared.outstanding < 4);
            }
            RunStep::Submit | RunStep::SubmitAndWait { .. } => {
                shared.start_playout();
                match shared.process_select_event(Event::at_root(root)) {
                    SelectOutcome::Expand(event) => {
                        depth = depth.max(event.node_path().len());
                        match shared.process_expand_event(event, GameResult::Undecided, false) {
                            ExpandOutcome::Evaluate(event) => {
                                pending.push(EvalEvent { event, legal_moves: moves.clone() })
                            }
                            _ => unreachable!(),
                        }
                    }
                    SelectOutcome::Parked => {}
                    other => panic!("unexpected: {other:?}"),
                }
            }
        }
    }
    let rows = pending.iter().map(|_| Ok(evaluation(0.0, &[0.5, 0.3, 0.2]))).collect();
    shared.handle_nn_reply_batch(pending, &rows).expect("reply");
    let stats = shared.stats();
    assert!(stats.completed_playouts >= 64);
    assert!(stats.network_evaluations > 0);
    assert_eq!(stats.max_depth, depth as u64);
    let stats = root_stats(&shared.arena, root).expect("root");
    assert!(stats.completed_visits >= 64);
    assert!(stats.edges.iter().all(|edge| edge.started_visits == edge.completed_visits));
    assert!(best_move(&shared.arena, root, false).is_some());
    assert_eq!(shared.outstanding, 0);
    assert!(shared.outcome().is_ok());
}

#[test]
fn reused_proven_win_is_not_a_root_game_terminal() {
    let reply = mv("a9", "a8");
    let (mut arena, root) = root_with(&[(mv("b2", "b3"), 1.0)]);
    let child = arena.child_or_create(root, 0);
    expanded(&mut arena, child, &[(reply, 1.0)]);
    let terminal = arena.child_or_create(child, 0);
    assert!(arena.node_mut(terminal).try_claim());
    arena.node_mut(terminal).mark_terminal(F32(1.0), F32(0.0), F32(0.0));
    arena.propagate_proven_terminals(&vec![root, child, terminal], root);
    assert_eq!(arena.get(child).expect("child").expansion_state(), ExpansionState::Terminal);
    assert_eq!(arena.get(root).expect("root").expansion_state(), ExpansionState::Expanded);
    assert_eq!(best_move(&arena, child, true), Some(mv("a0", "a1")));
}

#[test]
fn a_second_line_waits_for_a_claimed_leaf() {
    let mut arena = Arena::default();
    let root = arena.allocate();
    let mut shared = shared(arena, 2);
    let event = expand(&mut shared, root);
    assert!(matches!(shared.process_select_event(Event::at_root(root)), SelectOutcome::Parked));
    assert_eq!(shared.collision_waiters.len(), 1);
    let outcome = shared.process_expand_event(event, GameResult::Draw, false);
    assert!(matches!(outcome, ExpandOutcome::Completed));
    assert_eq!(shared.collision_waiters.len(), 0);
    assert_eq!((shared.outstanding, shared.completed), (0, 1));
    assert_eq!(
        shared.arena.get(root).expect("root").terminal_value(),
        Some((F32(0.0), F32(1.0), F32(0.0)))
    );
}

#[test]
fn a_stopped_search_gives_everything_back() {
    let mut arena = Arena::default();
    let root = arena.allocate();
    let mut shared = shared(arena, 3);
    let event = expand(&mut shared, root);
    assert!(matches!(shared.process_select_event(Event::at_root(root)), SelectOutcome::Parked));
    shared.request_stop();
    assert!(matches!(shared.process_select_event(Event::at_root(root)), SelectOutcome::Cancelled));
    let outcome = shared.process_expand_event(event, GameResult::Undecided, false);
    assert!(matches!(outcome, ExpandOutcome::Cancelled));
    assert_eq!(shared.arena.get(root).expect("root").expansion_state(), ExpansionState::Unexpanded);
    assert_eq!((shared.outstanding, shared.completed), (0, 0));
    assert_eq!(shared.next_step(&SearchLimits::default(), 0, root, 0, 4), RunStep::Finish);
}

#[test]
fn a_known_evaluation_needs_no_request() {
    let mut arena = Arena::default();
    let root = arena.allocate();
    let mut shared = shared(arena, 1);
    let event = expand(&mut shared, root);
    let item = EvalEvent { event, legal_moves: vec![mv("a0", "a1"), mv("b0", "b1")] };
    let outcome = shared.process_eval_event(item, Some(evaluation(0.5, &[0.25, 0.75])));
    assert!(matches!(outcome, EvalOutcome::Completed));
    let node = shared.arena.get(root).expect("root");
    assert_eq!(node.edges()[0].mv(), mv("b0", "b1"));
    assert_eq!(node.edges()[0].prior(), F32(0.75));
    assert_eq!(node.q(), F32(-0.5));
    assert_eq!((shared.outstanding, shared.completed, shared.returned_credits), (0, 1, 0));
}

#[test]
fn an_unknown_evaluation_is_requested() {
    let mut arena = Arena::default();
    let root = arena.allocate();
    let mut shared = shared(arena, 1);
    let event = expand(&mut shared, root);
    let item = EvalEvent { event, legal_moves: vec![mv("a0", "a1")] };
    let outcome = shared.process_eval_event(item, None);
    assert!(matches!(outcome, EvalOutcome::Request(item) if item.event.node_id == root));
    assert_eq!(shared.outstanding, 1);
}

#[test]
fn a_faulty_row_ends_the_lines_behind_it() {
    let (mut arena, root) = root_with(&[(mv("a0", "a1"), 0.5), (mv("b0", "b1"), 0.5)]);
    let children = [arena.child_or_create(root, 0), arena.child_or_create(root, 1)];
    let mut events = Vec::new();
    for (edge, &child) in children.iter().enumerate() {
        assert!(arena.node_mut(child).try_claim());
        let mut event = Event::at_root(root);
        event.descend(child, arena.node_mut(root).reserve_edge(edge, F32(0.0)).expect("edge"));
        events.push(EvalEvent { event, legal_moves: vec![mv("c0", "c1")] });
    }
    let mut shared = shared(arena, 2);
    let rows = vec![Ok(evaluation(0.25, &[1.0])), Err(EnginError::Internal("broken row"))];
    let error = shared.handle_nn_reply_batch(events, &rows).err().expect("fault");
    assert_eq!(error.message(), "broken row");
    assert_eq!(shared.arena.get(children[0]).expect("child").expansion_state(), ExpansionState::Expanded);
    assert_eq!(shared.arena.get(children[1]).expect("child").expansion_state(), ExpansionState::Unexpanded);
    assert_eq!((shared.outstanding, shared.completed, shared.returned_credits), (1, 0, 1));
    let visits: Vec<(u32, u32)> =
        edges(&shared.arena, root).iter().map(|edge| (edge.visits(), edge.completed_visits())).collect();
    assert_eq!(visits, vec![(1, 0), (0, 0)]);
}

#[test]
fn the_first_failure_is_kept() {
    let mut shared = shared(Arena::default(), 0);
    shared.fail(EnginError::Internal("first"));
    shared.fail(EnginError::Internal("second"));
    assert!(shared.is_stopping());
    assert_eq!(shared.outcome().err().expect("failed").message(), "first");
}

#[test]
fn limits_decide_when_lines_are_begun() {
    let mut arena = Arena::default();
    let root = arena.allocate();
    let mut shared = shared(arena, 0);
    let none = SearchLimits::default();
    assert_eq!(shared.next_step(&none, 0, root, 0, 4), RunStep::SubmitAndWait { limit: 1 });
    let playouts = SearchLimits { max_playouts: Some(5), ..SearchLimits::default() };
    assert_eq!(shared.next_step(&playouts, 5, root, 0, 4), RunStep::Finish);
    let deadline = SearchLimits { deadline_ms: Some(100), ..SearchLimits::default() };
    assert_eq!(shared.next_step(&deadline, 0, root, 99, 4), RunStep::SubmitAndWait { limit: 1 });
    assert_eq!(shared.next_step(&deadline, 0, root, 100, 4), RunStep::Finish);
    shared.start_playout();
    let event = expand(&mut shared, root);
    assert_eq!(shared.next_step(&none, 0, root, 0, 4), RunStep::WaitBelow { limit: 1 });
    assert_eq!(shared.wait_decision(1, None, 0), WaitDecision::UntilWoken);
    assert_eq!(shared.wait_decision(1, Some(30), 10), WaitDecision::AtMost { ms: 20 });
    assert_eq!(shared.wait_decision(2, None, 0), WaitDecision::Done);
    let item = EvalEvent { event, legal_moves: vec![mv("a0", "a1")] };
    assert!(matches!(shared.process_eval_event(item, Some(evaluation(0.0, &[1.0]))), EvalOutcome::Completed));
    assert_eq!(shared.next_step(&none, 0, root, 0, 4), RunStep::Submit);
    assert_eq!(shared.next_step(&none, 0, root, 0, 0), RunStep::WaitBelow { limit: 0 });
    assert_eq!(dispatch_limit(5, 8), 13);
    assert_eq!(dispatch_limit(usize::MAX, 1), usize::MAX);
}

#[test]
fn cancelling_a_line_gives_its_visits_back() {
    let (mut arena, root) = root_with(&[(mv("a0", "a1"), 1.0)]);
    let child = arena.child_or_create(root, 0);
    let mut event = Event::at_root(root);
    event.descend(child, arena.node_mut(root).reserve_edge(0, F32(0.5)).expect("edge"));
    assert_eq!(event.moves(), &vec![mv("a0", "a1")]);
    assert_eq!(edges(&arena, root)[0].in_flight_visits(), 1);
    event.cancel(&mut arena);
    assert_eq!(edges(&arena, root)[0].visits(), 0);
    assert_eq!(edges(&arena, root)[0].stats().virtual_wl_sum, F32(0.0));
}

#[test]
fn variance_bonus_requires_evidence_and_scales_with_standard_error() {
    let params = Params { variance_bonus_scale: F32(0.8), ..Params::default() };
    assert_eq!(variance_bonus_from_se(0, F32(1.0), &params), F32(0.0));
    assert_eq!(variance_bonus_from_se(1, F32(1.0), &params), F32(0.0));
    assert!(near(variance_bonus_from_se(2, F32(1.0), &params), 0.8));
    assert!(near(variance_bonus_from_se(2, F32(0.1), &params), 0.08));
}

#[test]
fn select_in_flight_visit_deflects_selection_without_changing_completed_q() {
    let (mut arena, node) = root_with(&[(mv("b2", "b3"), 0.6), (mv("c3", "c4"), 0.4)]);
    let params = Params { virtual_mean_fpu_scale: F32(0.0), ..Params::default() };
    assert_eq!(selected(&arena, node, &params, &[]), Some(0));

    let reservation = arena.node_mut(node).reserve_edge(0, F32(0.0)).expect("first edge");
    assert_eq!(selected(&arena, node, &params, &[]), Some(1));
    reservation.cancel(arena.node_mut(node));
    assert_eq!(edges(&arena, node)[0].completed_visits(), 0);
}

#[test]
fn select_root_move_filter_restricts_selection() {
    let (arena, node) = root_with(&[(mv("b2", "b3"), 0.9), (mv("c3", "c4"), 0.1)]);
    assert_eq!(selected(&arena, node, &Params::default(), &[mv("c3", "c4")]), Some(1));
    assert_eq!(selected(&arena, node, &Params::default(), &[mv("d3", "d4")]), None);
}

#[test]
fn terminal_child_remains_selectable() {
    let (mut arena, node) = root_with(&[(mv("b2", "b3"), 0.9), (mv("c3", "c4"), 0.1)]);
    let terminal = arena.child_or_create(node, 0);
    assert!(arena.node_mut(terminal).try_claim());
    arena.node_mut(terminal).mark_terminal(F32(-1.0), F32(0.0), F32(1.0));
    assert_eq!(selected(&arena, node, &Params::default(), &[]), Some(0));
}

#[test]
fn visited_edge_utility_reads_edge_q() {
    let (mut arena, node) = root_with(&[(mv("a0", "a1"), 1.0)]);
    complete_samples(&mut arena, node, 0, &[0.5]);
    assert!(near(edge_utility(&edges(&arena, node)[0], 0.0), 0.5));
    assert!((visited_policy(edges(&arena, node)).0 - 1.0).abs() < f32::EPSILON);
}

#[test]
fn select_virtual_fpu_mean_is_temporary_action_q_only() {
    let (mut arena, node) = root_with(&[(mv("a0", "a1"), 1.0)]);
    complete_samples(&mut arena, node, 0, &[0.8]);
    assert!(near(edge_utility(&edges(&arena, node)[0], -0.3), 0.8));

    let reservation = arena.node_mut(node).reserve_edge(0, F32(-0.3)).expect("virtual mean reservation");
    assert!(near(edge_utility(&edges(&arena, node)[0], -0.3), 0.25));
    reservation.cancel(arena.node_mut(node));

    assert!(near(edge_utility(&edges(&arena, node)[0], -0.3), 0.8));
    let stats = edges(&arena, node)[0].stats();
    assert_eq!(stats.visits, 1);
    assert_eq!(stats.virtual_wl_sum, F32(0.0));
}

#[test]
fn rules_are_named_in_any_case() {
    for rule in [
        DecisionRule::Auto,
        DecisionRule::MaxQ,
        DecisionRule::MaxN,
        DecisionRule::Lcb,
        DecisionRule::Ucb,
        DecisionRule::MixNQ,
    ] {
        assert_eq!(DecisionRule::parse_uci(rule.uci_name()), Some(rule));
        assert_eq!(DecisionRule::parse_uci(&rule.uci_name().to_uppercase()), Some(rule));
    }
    assert_eq!(DecisionRule::parse_uci("mixnq"), Some(DecisionRule::MixNQ));
    assert_eq!(DecisionRule::parse_uci("MaxQ "), None);
    assert_eq!(DecisionRule::parse_uci(""), None);
}

#[test]
fn faulty_stream_parameters_are_named() {
    let p = Params::default;
    assert!(p().validate().is_ok());
    let bad = F32(f32::NAN);
    let cases = [
        (Params { cpuct: F32(-1.0), ..p() }, "stream cpuct must be finite and non-negative"),
        (Params { cpuct_base: F32(0.0), ..p() }, "stream cpuct base must be finite and positive"),
        (Params { cpuct_factor: bad, ..p() }, "stream cpuct factor must be finite and non-negative"),
        (
            Params { fpu_reduction: F32(f32::INFINITY), ..p() },
            "stream FPU reduction must be finite and non-negative",
        ),
        (
            Params { variance_bonus_scale: bad, ..p() },
            "stream variance bonus scale must be finite and non-negative",
        ),
        (
            Params { virtual_mean_fpu_scale: bad, ..p() },
            "stream virtual mean FPU scale must be finite and non-negative",
        ),
        (
            Params { decision_lcb_stdevs: bad, ..p() },
            "stream decision LCB stdevs must be finite and non-negative",
        ),
        (
            Params { decision_ucb_stdevs: F32(-0.5), ..p() },
            "stream decision UCB stdevs must be finite and non-negative",
        ),
        (
            Params { decision_mix_n_weight: bad, ..p() },
            "stream decision MixNQ N weight must be finite and non-negative",
        ),
    ];
    for (params, fault) in cases {
        assert_eq!(params.validate(), Err(fault));
    }
    let small = params::SearchParams::<F32>::default;
    assert!(small().validate().is_ok());
    assert_eq!(
        params::SearchParams { cpuct_factor: bad, ..small() }.validate(),
        Err("stream cpuct factor must be finite")
    );
}

#[test]
fn configurations_are_resolved_for_the_backend() {
    let config = SearchConfig::<F32>::default;
    assert!(config().validate().is_ok());
    assert_eq!(
        SearchConfig { cpu_workers: 0, ..config() }.validate(),
        Err("stream requires at least one CPU worker")
    );
    assert_eq!(
        SearchConfig { nn_window: F32(0.0), ..config() }.validate(),
        Err("stream nn window factor must be finite and positive")
    );
    let resolved = config().resolve(32, 256).expect("fits");
    assert_eq!(resolved.eval_batch_size, 32);
    assert_eq!(resolved.queue_capacity, 4096);
    assert_eq!(resolved.eval_claim_limit, 72);
    let capped = SearchConfig { eval_batch_size: 500, ..config() }.resolve(32, 256).expect("fits");
    assert_eq!((capped.eval_batch_size, capped.queue_capacity), (256, 16_384));
    assert_eq!(
        SearchConfig { queue_capacity: 8, ..config() }.resolve(32, 256).err(),
        Some("stream eval batch size must fit the queue capacity")
    );
    assert_eq!(config().resolve(0, 0).expect("fits").eval_batch_size, 1);
}

#[test]
fn waits_are_measured_once() {
    let mut none = NoQueueStamp::default();
    none.mark(5);
    assert_eq!(none.take_wait(9), None);
    let mut stamp = InstantQueueStamp::default();
    assert_eq!(stamp.take_wait(9), None);
    stamp.mark(5);
    assert_eq!(stamp.take_wait(9), Some(4));
    assert_eq!(stamp.take_wait(9), None);
}

#[test]
fn the_observer_counts_what_it_sees() {
    let mut observer = BenchObserver::new();
    observer.on_submitted();
    observer.on_submitted();
    observer.on_collision(3);
    observer.on_peak_inflight(7);
    observer.on_peak_inflight(4);
    observer.on_batch(0);
    observer.on_batch(2);
    observer.on_queue_wait(QueueKind::Eval, 30);
    observer.on_queue_wait(QueueKind::Eval, 10);
    observer.on_queue_wait(QueueKind::Nn, 5);
    let stats = observer.snapshot();
    assert_eq!((stats.submitted_playouts, stats.collisions, stats.peak_in_flight), (2, 1, 7));
    assert_eq!(stats.collisions_by_depth, vec![0, 0, 0, 1]);
    assert_eq!(stats.batches_by_size, vec![0, 0, 1]);
    assert_eq!(
        (stats.eval_queue.samples, stats.eval_queue.total_wait_ns, stats.eval_queue.max_wait_ns),
        (2, 40, 30)
    );
    assert_eq!(stats.nn_queue.max_wait_ns, 5);
    assert_eq!(stats.gather_queue.samples, 0);
    let mut metrics = QueueMetrics::default();
    metrics.record(8);
    assert_eq!(metrics.snapshot().total_wait_ns, 8);
}

#[test]
fn fixed_numbers_compute_in_millionths() {
    let half = Fixed::one().over(Fixed::count(2));
    assert_eq!(half.raw, 500_000);
    assert_eq!(half.times(half).raw, 250_000);
    assert_eq!(Fixed::count(9).root().raw, 3_000_000);
    assert_eq!(Fixed::integer(-3).plus(half).truncated(), -2);
    assert_eq!(Fixed::count(2).minus(Fixed::count(5)).raw, -3_000_000);
    assert!(half.above(Fixed::zero()) && !half.above(half));
}

#[test]
fn a_run_stops_at_its_deadline() {
    let mut shared = shared(Arena::default(), 0);
    let limits = SearchLimits { deadline_ms: Some(100), ..SearchLimits::default() };
    shared.stop_at_deadline(&limits, 99);
    assert!(!shared.is_stopping());
    shared.stop_at_deadline(&SearchLimits::default(), i64::MAX);
    assert!(!shared.is_stopping());
    shared.stop_at_deadline(&limits, 100);
    assert!(shared.is_stopping());
}

#[test]
fn a_run_begins_only_where_the_game_goes_on() {
    let mut shared = shared(Arena::default(), 0);
    let limits = SearchLimits { root_move_filter: vec![mv("a0", "a1")], ..SearchLimits::default() };
    assert!(!shared.begin_run(&limits, GameResult::Draw));
    assert!(!shared.begin_run(&limits, GameResult::BlackWon));
    assert!(shared.begin_run(&limits, GameResult::Undecided));
    assert_eq!(shared.root_move_filter, vec![mv("a0", "a1")]);
}

#[test]
fn claim_limits_are_not_cut_short() {
    let wide = SearchConfig { eval_batch_size: 3, nn_window: F32(4_294_967_296.0), ..SearchConfig::default() };
    let resolved = wide.resolve(32, 64).expect("sizes");
    assert_eq!(resolved.eval_claim_limit, 12_884_901_888);
}

#[test]
fn the_last_line_takes_the_place_of_one_that_stops_waiting() {
    let (mut arena, root) =
        root_with(&[(mv("a0", "a1"), 0.4), (mv("b0", "b1"), 0.3), (mv("c0", "c1"), 0.3)]);
    let children: Vec<usize> = (0..3).map(|edge| arena.child_or_create(root, edge)).collect();
    for &child in &children {
        assert!(arena.node_mut(child).try_claim());
    }
    let mut shared = shared(arena, 4);
    for edge in [0, 1, 0, 2] {
        let mut event = Event::at_root(root);
        let reservation = shared.arena.node_mut(root).reserve_edge(edge, F32(0.0)).expect("edge");
        event.descend(children[edge], reservation);
        assert!(shared.park_collision(event));
    }
    shared.cancel_collisions(children[0]);
    let waiting: Vec<usize> = shared.collision_waiters.iter().map(|event| event.node_id).collect();
    assert_eq!(waiting, vec![children[2], children[1]]);
    assert_eq!(shared.outstanding, 2);
    let visits: Vec<u32> = edges(&shared.arena, root).iter().map(|edge| edge.visits()).collect();
    assert_eq!(visits, vec![0, 1, 1]);
}
