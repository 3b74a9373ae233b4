use xiangqi_search::error::EnginError;
use xiangqi_search::graph::backprop::BackpropEvent;
use xiangqi_search::graph::edge::EdgeReservation;
use xiangqi_search::graph::event::{NextPosition, NodeEvent, Variation};
use xiangqi_search::graph::extension::{classify_extension, ExtensionKind, LeafFacts};
use xiangqi_search::graph::history::History;
use xiangqi_search::graph::key::NodeKey;
use xiangqi_search::graph::node::{ExpansionState, Node};
use xiangqi_search::graph::policy::{
    compute_cpuct, edge_utility, select_edge, visited_policy, SearchParams,
};
use xiangqi_search::graph::history_lines::{
    principal_variation_with_history_and_params, root_variations_with_history,
};
use xiangqi_search::graph::ranking::{edge_lcb, edge_value};
use xiangqi_search::graph::repository::NodeRepository;
use xiangqi_search::graph::search_graph::{Continuations, SearchGraph};
use xiangqi_search::graph::session::{limits_of, validate_go};
use xiangqi_search::graph::state::{SearchState, WatchdogSnapshot, WorkerCounts};
use xiangqi_search::graph::stats::{
    best_mate_with_params, best_move, best_move_filtered, best_move_filtered_with_params,
    principal_variation, root_stats, root_variations,
};
use xiangqi_search::graph::topology::ChildLink;
use xiangqi_search::graph::value::ValueDelta;
use xiangqi_search::go_params::GoParams;
use xiangqi_search::position::{GameResult, Move, Position};
use xiangqi_search::scalar::Scalar;
use xiangqi_search::stream::shared::Stats;

#[derive(Clone, Copy, Debug, PartialEq)]
struct F32(f32);

impl Scalar for F32 {
    fn zero() -> Self {
        F32(0.0)
    }
    fn spec_zero() -> Self {
        Self::zero()
    }
    fn one() -> Self {
        F32(1.0)
    }
    fn spec_one() -> Self {
        Self::one()
    }
    fn count(n: u32) -> Self {
        F32(n as f32)
    }
    fn spec_count(n: u32) -> Self {
        Self::count(n)
    }
    fn integer(n: i64) -> Self {
        F32(n as f32)
    }
    fn spec_integer(n: i64) -> Self {
        Self::integer(n)
    }
    fn from_bits(bits: u32) -> Self {
        F32(f32::from_bits(bits))
    }
    fn spec_from_bits(bits: u32) -> Self {
        Self::from_bits(bits)
    }
    fn plus(self, other: Self) -> Self {
        F32(self.0 + other.0)
    }
    fn spec_plus(self, other: Self) -> Self {
        self.plus(other)
    }
    fn minus(self, other: Self) -> Self {
        F32(self.0 - other.0)
    }
    fn spec_minus(self, other: Self) -> Self {
        self.minus(other)
    }
    fn times(self, other: Self) -> Self {
        F32(self.0 * other.0)
    }
    fn spec_times(self, other: Self) -> Self {
        self.times(other)
    }
    fn over(self, other: Self) -> Self {
        F32(self.0 / other.0)
    }
    fn spec_over(self, other: Self) -> Self {
        self.over(other)
    }
    fn negated(self) -> Self {
        F32(-self.0)
    }
    fn spec_negated(self) -> Self {
        self.negated()
    }
    fn root(self) -> Self {
        F32(self.0.sqrt())
    }
    fn spec_root(self) -> Self {
        self.root()
    }
    fn log(self) -> Self {
        F32(self.0.ln())
    }
    fn spec_log(self) -> Self {
        self.log()
    }
    fn above(self, other: Self) -> bool {
        self.0 > other.0
    }
    fn spec_above(self, other: Self) -> bool {
        self.above(other)
    }
    fn same(self, other: Self) -> bool {
        self.0 == other.0
    }
    fn spec_same(self, other: Self) -> bool {
        self.same(other)
    }
    fn total_key(self) -> i64 {
        let bits = self.0.to_bits() as i32;
        (bits ^ (((bits >> 31) as u32) >> 1) as i32) as i64
    }
    fn spec_total_key(self) -> i64 {
        self.total_key()
    }
    fn floor_count(self) -> u32 {
        self.0.floor() as u32
    }
    fn spec_floor_count(self) -> u32 {
        self.floor_count()
    }
    fn rounded(self) -> i32 {
        self.0.round() as i32
    }
    fn spec_rounded(self) -> i32 {
        self.rounded()
    }
    fn truncated(self) -> i64 {
        self.0 as i64
    }
    fn spec_truncated(self) -> i64 {
        self.truncated()
    }
}

const EPSILON: f32 = f32::EPSILON;

type Repository = NodeRepository<F32>;
type Params = SearchParams<F32>;

fn square(text: &str) -> u8 {
    let bytes = text.as_bytes();
    9 * (bytes[1] - b'0') + (bytes[0] - b'a')
}

fn mv(from: &str, to: &str) -> Move {
    Move::new(square(from), square(to))
}

fn one(wl: f32, draw: f32) -> ValueDelta<F32> {
    ValueDelta::one(F32(wl), F32(draw))
}

fn with_plies(wl: f32, draw: f32, plies: f32) -> ValueDelta<F32> {
    ValueDelta::with_plies_left(F32(wl), F32(draw), F32(plies))
}

fn repository() -> Repository {
    NodeRepository::default()
}

fn node(repo: &Repository, key: NodeKey) -> &Node<F32> {
    repo.get(key).expect("node")
}

fn claim(repo: &mut Repository, key: NodeKey) {
    assert!(repo.get_or_insert(key).try_begin_evaluation());
}

fn publish(repo: &mut Repository, key: NodeKey, edges: &[(Move, f32)]) {
    claim(repo, key);
    let edges: Vec<(Move, F32)> = edges.iter().map(|&(mv, prior)| (mv, F32(prior))).collect();
    repo.get_or_insert(key).publish_edges(&edges);
}

fn set_value(repo: &mut Repository, key: NodeKey, value: ValueDelta<F32>) {
    repo.get_or_insert(key).set_graph_value(value);
}

fn bind(repo: &mut Repository, key: NodeKey, edge: usize, child: NodeKey) {
    repo.get_or_insert(key).edge_mut(edge).bind_child_key(child);
}

fn reserve(repo: &mut Repository, key: NodeKey, edge: usize) -> EdgeReservation<F32> {
    repo.get_or_insert(key).reserve_edge(edge).expect("edge")
}

fn complete(repo: &mut Repository, key: NodeKey, reservation: EdgeReservation<F32>) {
    reservation.complete(repo.get_or_insert(key).edge_mut(reservation.edge));
}

fn complete_local(
    repo: &mut Repository,
    key: NodeKey,
    reservation: EdgeReservation<F32>,
    value: ValueDelta<F32>,
) {
    reservation.complete_local_leaf(repo.get_or_insert(key).edge_mut(reservation.edge), value);
}

fn cancel(repo: &mut Repository, key: NodeKey, reservation: EdgeReservation<F32>) {
    reservation.cancel(repo.get_or_insert(key).edge_mut(reservation.edge));
}

fn visit(repo: &mut Repository, key: NodeKey, edge: usize) {
    let reservation = reserve(repo, key, edge);
    complete(repo, key, reservation);
}

fn mark_terminal(repo: &mut Repository, key: NodeKey, wl: f32, draw: f32, plies: f32) {
    claim(repo, key);
    repo.get_or_insert(key).mark_terminal(F32(wl), F32(draw), F32(plies));
}

fn position(board: u64, black_to_move: bool, repetitions: u32) -> Position {
    Position {
        board,
        board_hash: board,
        black_to_move,
        repetitions,
        cycle_length: 0,
        rule60_ply: 0,
        game_ply: 0,
    }
}

fn history(boards: &[u64]) -> History {
    History {
        positions: boards
            .iter()
            .enumerate()
            .map(|(ply, &board)| position(board, ply % 2 == 1, 0))
            .collect(),
        did_repeat: false,
        rule_context_hash: 0,
    }
}

fn next(board: u64) -> NextPosition {
    NextPosition { position: position(board, true, 0), did_repeat: false, rule_context_hash: 0 }
}

fn event_at(generation: u64, root: &History) -> NodeEvent<F32> {
    NodeEvent::root(generation, root)
}

fn close(left: F32, right: f32, bound: f32) -> bool {
    (left.0 - right).abs() < bound
}

#[test]
fn parent_delta_flips_wl_not_draw() {
    let leaf = one(0.6, 0.2).for_parent();
    let expected = one(-0.6, 0.2);
    assert_eq!(leaf.visits, expected.visits);
    assert_eq!(leaf.wl_sum, expected.wl_sum);
    assert_eq!(leaf.wl_sq_sum, expected.wl_sq_sum);
    assert_eq!(leaf.draw_sum, expected.draw_sum);
    assert_eq!(leaf.m_sum, expected.m_sum);
}

#[test]
fn deltas_add_up_and_repeat() {
    let delta = with_plies(0.5, 0.25, 4.0);
    let tripled = delta.repeated(3);
    assert_eq!((tripled.visits, tripled.wl_sum, tripled.draw_sum, tripled.m_sum), (3, F32(1.5), F32(0.75), F32(12.0)));
    let both = tripled.merge(one(-0.5, 0.0));
    assert_eq!((both.visits, both.wl_sum), (4, F32(1.0)));
    assert_eq!(both.q(), F32(0.25));
    assert_eq!(both.one_ply_up().m_sum, F32(16.0));
    assert_eq!(ValueDelta::<F32>::default().q(), F32(0.0));
}

#[test]
fn defaults_use_the_selected_constant_cpuct() {
    let params = Params::default();
    assert_eq!(params.cpuct, F32(1.75));
    assert_eq!(params.cpuct_base, F32(40_000.0));
    assert_eq!(params.cpuct_factor, F32(4.0));
    assert_eq!(params.fpu_reduction, F32(0.200));
    assert_eq!(params.lcb_stdevs, F32(5.0));
    assert_eq!(params.lcb_min_visit_fraction, F32(0.15));
    assert_eq!(compute_cpuct(&params, 0), params.cpuct);
    assert!(close(compute_cpuct(&params, 50_000), 5.0, 0.05));
}

#[test]
fn policy_zero_cpuct_factor_keeps_the_initial_value() {
    let params = Params { cpuct: F32(1.25), cpuct_factor: F32(0.0), ..Params::default() };
    assert_eq!(compute_cpuct(&params, 10_000), F32(1.25));
}

#[test]
fn faulty_parameters_are_named() {
    let good = Params::default();
    assert!(good.validate().is_ok());
    let faults = [
        (Params { cpuct: F32(-1.0), ..good }, "stream cpuct must be finite and non-negative"),
        (Params { cpuct: F32(f32::NAN), ..good }, "stream cpuct must be finite and non-negative"),
        (Params { cpuct_base: F32(0.0), ..good }, "stream cpuct base must be finite and positive"),
        (
            Params { cpuct_factor: F32(f32::INFINITY), ..good },
            "stream cpuct factor must be finite and non-negative",
        ),
        (Params { fpu_reduction: F32(-0.1), ..good }, "stream FPU reduction must be finite and non-negative"),
        (
            Params { virtual_mean_fpu_scale: Some(F32(-1.0)), ..good },
            "stream virtual mean FPU scale must be finite and non-negative",
        ),
        (Params { lcb_stdevs: F32(-5.0), ..good }, "stream LCB stdevs must be finite and non-negative"),
        (
            Params { lcb_min_visit_fraction: F32(1.5), ..good },
            "stream LCB minimum visit fraction must be within [0, 1]",
        ),
    ];
    for (params, fault) in faults {
        assert_eq!(params.validate(), Err(fault));
    }
}

fn selected(repo: &Repository, key: NodeKey, visits: u32, params: &Params, filter: &[Move]) -> Option<usize> {
    select_edge(repo, node(repo, key).edges(), visits, F32(0.0), 0, params, &filter.to_vec())
        .map(|(index, _)| index)
}

#[test]
fn policy_in_flight_visit_deflects_selection_without_changing_completed_q() {
    let mut repo = repository();
    let key = NodeKey::board(9);
    publish(&mut repo, key, &[(mv("b2", "b3"), 0.6), (mv("c3", "c4"), 0.4)]);
    let params = Params::default();
    assert_eq!(selected(&repo, key, 0, &params, &[]), Some(0));

    let reservation = reserve(&mut repo, key, 0);
    assert_eq!(selected(&repo, key, 0, &params, &[]), Some(1));
    cancel(&mut repo, key, reservation);
    assert_eq!(node(&repo, key).edges()[0].completed_visits(), 0);
}

#[test]
fn virtual_visits_also_raise_the_parent_puct_numerator() {
    let mut repo = repository();
    let parent = NodeKey::board(51);
    publish(&mut repo, parent, &[(mv("b2", "b3"), 0.9), (mv("c3", "c4"), 0.1)]);
    for (index, key, q) in [(0, NodeKey::board(52), 0.0), (1, NodeKey::board(53), 0.15)] {
        bind(&mut repo, parent, index, key);
        set_value(&mut repo, key, one(q, 0.0));
        repo.recompute_graph_node(key);
    }
    let reservations: Vec<_> = (0..4).map(|_| reserve(&mut repo, parent, 0)).collect();
    let params = Params { cpuct: F32(1.0), cpuct_factor: F32(0.0), ..Params::default() };
    assert_eq!(selected(&repo, parent, 1, &params, &[]), Some(0));
    for reservation in reservations {
        cancel(&mut repo, parent, reservation);
    }
}

#[test]
fn policy_root_move_filter_restricts_selection() {
    let mut repo = repository();
    let key = NodeKey::board(9);
    publish(&mut repo, key, &[(mv("b2", "b3"), 0.9), (mv("c3", "c4"), 0.1)]);
    let params = Params::default();
    assert_eq!(selected(&repo, key, 0, &params, &[mv("c3", "c4")]), Some(1));
    assert_eq!(selected(&repo, key, 0, &params, &[mv("d3", "d4")]), None);
}

#[test]
fn visited_edge_utility_reads_shared_child_q() {
    let mut repo = repository();
    let key = NodeKey::board(3);
    publish(&mut repo, key, &[(mv("a0", "a1"), 1.0)]);
    let child = NodeKey::board(4);
    bind(&mut repo, key, 0, child);
    set_value(&mut repo, child, one(0.5, 0.0));
    repo.recompute_graph_node(child);
    visit(&mut repo, key, 0);
    let edge = node(&repo, key).edges()[0];
    assert!(close(edge_utility(&repo, &edge, F32(0.0), false), 0.5, 1e-6));
}

#[test]
fn unvisited_transposition_uses_shared_child_q_not_fpu() {
    let mut repo = repository();
    let key = NodeKey::board(40);
    publish(&mut repo, key, &[(mv("a0", "a1"), 1.0)]);
    let child = NodeKey::board(41);
    bind(&mut repo, key, 0, child);
    set_value(&mut repo, child, one(0.5, 0.0));
    repo.recompute_graph_node(child);

    let edge = node(&repo, key).edges()[0];
    assert_eq!(edge.completed_visits(), 0);
    assert!(close(edge_utility(&repo, &edge, F32(-0.4), false), 0.5, 1e-6));
    assert!(close(visited_policy(&repo, &vec![edge]), 1.0, EPSILON));
}

#[test]
fn policy_virtual_fpu_mean_is_temporary_action_q_only() {
    let mut repo = repository();
    let key = NodeKey::board(50);
    publish(&mut repo, key, &[(mv("a0", "a1"), 1.0)]);
    let child = NodeKey::board(51);
    bind(&mut repo, key, 0, child);
    set_value(&mut repo, child, one(0.8, 0.0));
    repo.recompute_graph_node(child);
    visit(&mut repo, key, 0);
    let utility = |repo: &Repository| edge_utility(repo, &node(repo, key).edges()[0], F32(-0.3), true);
    assert!(close(utility(&repo), 0.8, 1e-6));

    let reservation = repo
        .get_or_insert(key)
        .reserve_edge_visits(0, 1, Some(F32(-0.3)))
        .expect("virtual mean reservation");
    assert!(close(utility(&repo), 0.25, 1e-6));
    cancel(&mut repo, key, reservation);

    assert!(close(utility(&repo), 0.8, 1e-6));
    let stats = node(&repo, key).edges()[0].stats();
    assert_eq!(stats.visits, 1);
    assert_eq!(stats.virtual_wl_sum, F32(0.0));
}

#[test]
fn path_terminal_is_one_edge_sample_not_a_permanent_child_override() {
    let mut repo = repository();
    let key = NodeKey::board(30);
    publish(&mut repo, key, &[(mv("a0", "a1"), 1.0)]);
    let child = NodeKey::board(31);
    bind(&mut repo, key, 0, child);
    set_value(&mut repo, child, one(-0.2, 0.0));
    repo.recompute_graph_node(child);

    let terminal = reserve(&mut repo, key, 0);
    complete_local(&mut repo, key, terminal, one(0.6, 0.0));
    visit(&mut repo, key, 0);

    let edge = node(&repo, key).edges()[0];
    assert!(close(edge_utility(&repo, &edge, F32(0.0), false), 0.2, 1e-6));
}

fn continuations(replies: Vec<(Move, History)>) -> Continuations {
    Continuations { replies }
}

#[test]
fn advancing_and_collecting_keeps_only_the_new_root_graph() {
    let mut tree: SearchGraph<F32> = SearchGraph::new(history(&[1]));
    let old_root = tree.root_key();
    let keep = mv("a0", "a1");
    let drop = mv("a0", "a2");
    publish(&mut tree.repository, old_root, &[(keep, 0.5), (drop, 0.5)]);
    let kept_child = NodeKey::board(2);
    let dropped_child = NodeKey::board(3);
    let dropped_grandchild = NodeKey::board(0xdead_beef);
    bind(&mut tree.repository, old_root, 0, kept_child);
    bind(&mut tree.repository, old_root, 1, dropped_child);
    tree.repository.get_or_insert(kept_child);
    publish(&mut tree.repository, dropped_child, &[(mv("a9", "a8"), 1.0)]);
    bind(&mut tree.repository, dropped_child, 0, dropped_grandchild);
    tree.repository.get_or_insert(dropped_grandchild);
    assert_eq!(tree.repository().len(), 4);

    let legal = continuations(vec![(keep, history(&[1, 2])), (drop, history(&[1, 3]))]);
    tree.advance(keep, &legal).expect("advance");
    let gc_root = tree.take_pending_gc_root().expect("advanced root schedules GC");
    assert_eq!(tree.repository.retain_from_root(gc_root), 3);
    assert_eq!(tree.repository().len(), 1);
    assert_eq!(tree.root_key(), kept_child);
    assert_eq!(tree.root_history().len(), 2);
    assert!(tree.repository().get(old_root).is_none());
    assert!(tree.repository().get(kept_child).is_some());
    assert!(tree.repository().get(dropped_child).is_none());
    assert!(tree.repository().get(dropped_grandchild).is_none());
    assert!(tree.take_pending_gc_root().is_none());
}

#[test]
fn advance_rejects_an_in_flight_reservation() {
    let mut tree: SearchGraph<F32> = SearchGraph::new(history(&[1]));
    let root = tree.root_key();
    let played = mv("a0", "a1");
    publish(&mut tree.repository, root, &[(played, 1.0)]);
    let reservation = reserve(&mut tree.repository, root, 0);
    let legal = continuations(vec![(played, history(&[1, 2]))]);
    assert!(tree.advance(played, &legal).is_err());
    cancel(&mut tree.repository, root, reservation);
    assert!(tree.advance(played, &legal).is_ok());
}

#[test]
fn advance_rejects_an_illegal_move() {
    let mut tree: SearchGraph<F32> = SearchGraph::new(history(&[1]));
    let legal = continuations(vec![(mv("a0", "a1"), history(&[1, 2]))]);
    match tree.advance(mv("b0", "b1"), &legal) {
        Err(EnginError::Unsupported(text)) => assert_eq!(text, "search graph advance requires a legal move"),
        _ => panic!("expected a refusal"),
    }
    assert_eq!(tree.root_key(), NodeKey::board(1));
}

fn repeated(boards: &[u64], context: u64) -> History {
    History { did_repeat: true, rule_context_hash: context, ..history(boards) }
}

#[test]
fn repeated_history_keeps_continuation_tree_across_turns() {
    let start = repeated(&[1, 2, 3, 4, 1], 77);
    let root = start.key();
    assert!(root.is_continuation());
    let mut graph: SearchGraph<F32> = SearchGraph::new(repeated(&[1, 2, 3, 4, 1], 77));
    assert_eq!(graph.root_key(), root);

    let played = mv("d9", "e9");
    let after = repeated(&[1, 2, 3, 4, 1, 2], 78);
    let expected_child = after.key();
    publish(&mut graph.repository, root, &[(played, 1.0)]);
    bind(&mut graph.repository, root, 0, expected_child);
    set_value(&mut graph.repository, expected_child, one(0.6, 0.0));
    graph.repository.recompute_graph_node(expected_child);

    graph.advance(played, &continuations(vec![(played, after)])).expect("advance contextual root");
    let gc_root = graph.take_pending_gc_root().expect("advance schedules GC");
    assert_eq!(graph.repository.retain_from_root(gc_root), 1);

    assert!(graph.root_key().is_continuation());
    assert_eq!(graph.root_key(), expected_child);
    let retained = graph.repository().get(expected_child).expect("retained contextual root");
    assert_eq!(retained.completed_visits(), 1);
    assert!(close(retained.q(), 0.6, EPSILON));
    assert_eq!(graph.root_history().key(), expected_child);
}

#[test]
fn reset_to_old_history_starts_a_fresh_graph_then_replays_continuation() {
    let mut tree: SearchGraph<F32> = SearchGraph::new(history(&[1]));
    let first = mv("a0", "a1");
    let second = mv("a9", "a8");
    let first_step = || continuations(vec![(mv("b0", "b1"), history(&[1, 9])), (first, history(&[1, 2]))]);
    let second_step = || continuations(vec![(second, history(&[1, 2, 3]))]);
    tree.advance(first, &first_step()).expect("first advance");
    tree.advance(second, &second_step()).expect("second advance");

    let first_history = history(&[1, 2]);
    assert!(tree.reset_to_history(&first_history, &Vec::new()).expect("reset old history").is_some());
    assert_eq!(tree.root_history().positions, first_history.positions);
    let target = history(&[1, 2, 3]);
    assert!(tree.reset_to_history(&target, &vec![second_step()]).expect("replay continuation").is_none());
    assert_eq!(tree.root_history().len(), 3);
    assert_eq!(tree.root_key(), NodeKey::board(3));
    assert!(tree.repository().get(NodeKey::board(3)).is_some());
}

#[test]
fn reset_to_the_same_history_changes_nothing() {
    let mut tree: SearchGraph<F32> = SearchGraph::new(history(&[1, 2]));
    let root = tree.root_key();
    tree.repository.get_or_insert(root);
    assert!(tree.reset_to_history(&history(&[1, 2]), &Vec::new()).expect("same").is_none());
    assert_eq!(tree.repository().len(), 1);
}

#[test]
fn reset_without_a_leading_move_is_refused() {
    let mut tree: SearchGraph<F32> = SearchGraph::new(history(&[1]));
    let steps = vec![continuations(vec![(mv("a0", "a1"), history(&[1, 5]))])];
    match tree.reset_to_history(&history(&[1, 2]), &steps) {
        Err(EnginError::Unsupported(text)) => {
            assert_eq!(text, "search graph reset could not derive legal move")
        }
        _ => panic!("expected a refusal"),
    }
}

#[test]
fn reset_is_refused_while_visits_are_under_way() {
    let mut tree: SearchGraph<F32> = SearchGraph::new(history(&[1]));
    let root = tree.root_key();
    publish(&mut tree.repository, root, &[(mv("a0", "a1"), 1.0)]);
    let _pending = reserve(&mut tree.repository, root, 0);
    match tree.reset_to_history(&history(&[7]), &Vec::new()) {
        Err(EnginError::Unsupported(text)) => {
            assert_eq!(text, "search graph reset requires settled reservations")
        }
        _ => panic!("expected a refusal"),
    }
}

#[test]
fn reset_to_unrelated_history_starts_fresh_repository() {
    let mut tree: SearchGraph<F32> = SearchGraph::new(history(&[1]));
    let played = mv("a0", "a1");
    tree.advance(played, &continuations(vec![(played, history(&[1, 2]))])).expect("advance");
    let target = history(&[1, 9]);

    let retired = tree
        .reset_to_history(&target, &Vec::new())
        .expect("fresh tree")
        .expect("unrelated history retires old repository");
    assert_eq!(retired.len(), 1);
    assert_eq!(tree.root_history().positions, target.positions);
    assert_eq!(tree.repository().len(), 0);
    assert_eq!(tree.root_key(), NodeKey::board(9));
}

#[test]
fn graph_recompute_keeps_action_visits_local_to_its_parent() {
    let mut repo = repository();
    let a = NodeKey::board(1);
    let b = NodeKey::board(2);
    let c = NodeKey::board(3);
    let d = NodeKey::board(4);
    let ab = mv("b2", "b3");
    let ac = mv("c2", "c3");
    let bd = mv("d2", "d3");
    let cd = mv("e2", "e3");
    for (key, edges, value) in [
        (a, vec![(ab, 0.5), (ac, 0.5)], 0.0),
        (b, vec![(bd, 1.0)], 0.0),
        (c, vec![(cd, 1.0)], 0.0),
        (d, vec![], 0.8),
    ] {
        publish(&mut repo, key, &edges);
        set_value(&mut repo, key, one(value, 0.0));
    }
    bind(&mut repo, a, 0, b);
    bind(&mut repo, a, 1, c);
    bind(&mut repo, b, 0, d);
    bind(&mut repo, c, 0, d);
    for key in [a, b, c, d] {
        repo.recompute_graph_node(key);
    }
    visit(&mut repo, b, 0);
    repo.recompute_graph_node(b);
    visit(&mut repo, a, 0);
    repo.recompute_graph_node(a);
    assert_eq!(node(&repo, c).edges()[0].completed_visits(), 0);
    assert_eq!(node(&repo, c).completed_visits(), 1);
    assert_eq!(node(&repo, b).completed_visits(), 2);
    assert!((node(&repo, b).q().0 + 0.4).abs() < 1e-6);
}

#[test]
fn recomputing_twice_is_recomputing_once() {
    let mut repo = repository();
    let a = NodeKey::board(1);
    let b = NodeKey::board(2);
    publish(&mut repo, a, &[(mv("b2", "b3"), 1.0)]);
    set_value(&mut repo, a, with_plies(0.2, 0.1, 3.0));
    set_value(&mut repo, b, with_plies(0.6, 0.3, 5.0));
    bind(&mut repo, a, 0, b);
    repo.recompute_graph_node(b);
    visit(&mut repo, a, 0);
    repo.recompute_graph_node(a);
    let first = node(&repo, a).value_moments_snapshot();
    repo.recompute_graph_node(a);
    assert_eq!(node(&repo, a).value_moments_snapshot(), first);
    assert!(close(first.0, -0.2, 1e-6));
    assert!(close(first.2, 4.5, 1e-6));
}

#[test]
fn new_edge_that_would_close_a_graph_cycle_is_permanently_pruned() {
    let mut repo = repository();
    let a = NodeKey::board(10);
    let b = NodeKey::board(11);
    let c = NodeKey::board(12);
    let d = NodeKey::board(13);
    let moves = [mv("b2", "b3"), mv("c2", "c3"), mv("d2", "d3"), mv("e2", "e3"), mv("f2", "f3")];
    for (key, edges, value) in [
        (a, vec![(moves[0], 0.5), (moves[1], 0.5)], 0.1),
        (b, vec![(moves[2], 1.0)], 0.25),
        (c, vec![(moves[3], 1.0)], 0.2),
        (d, vec![(moves[4], 1.0)], 0.4),
    ] {
        set_value(&mut repo, key, one(value, 0.0));
        publish(&mut repo, key, &edges);
    }
    assert_eq!(repo.bind_child_or_cut_cycle(a, 0, b), ChildLink::Bound);
    assert_eq!(repo.bind_child_or_cut_cycle(a, 1, c), ChildLink::Bound);
    assert_eq!(repo.bind_child_or_cut_cycle(b, 0, d), ChildLink::Bound);
    assert_eq!(repo.bind_child_or_cut_cycle(c, 0, d), ChildLink::Bound);

    assert_eq!(repo.bind_child_or_cut_cycle(d, 0, b), ChildLink::TopologyPruned);
    assert!(node(&repo, d).edges()[0].child_key().is_none());
    assert!(node(&repo, d).edges()[0].topology_pruned());
    assert_eq!(repo.bind_child_or_cut_cycle(d, 0, b), ChildLink::TopologyPruned);
    assert!(repo.reaches(a, d));
    assert!(!repo.reaches(d, a));
}

#[test]
fn binding_makes_the_child_and_keeps_bound_edges() {
    let mut repo = repository();
    let a = NodeKey::board(1);
    let b = NodeKey::board(2);
    publish(&mut repo, a, &[(mv("b2", "b3"), 1.0)]);
    assert!(repo.get(b).is_none());
    assert_eq!(repo.bind_child_or_cut_cycle(a, 0, b), ChildLink::Bound);
    assert_eq!(node(&repo, b).expansion_state(), ExpansionState::Unexpanded);
    assert_eq!(repo.bind_child_or_cut_cycle(a, 0, b), ChildLink::Bound);
    assert_eq!(node(&repo, a).edges()[0].child_key(), Some(b));
}

#[test]
fn an_edge_to_its_own_node_is_pruned() {
    let mut repo = repository();
    let a = NodeKey::board(1);
    publish(&mut repo, a, &[(mv("b2", "b3"), 1.0)]);
    assert_eq!(repo.bind_child_or_cut_cycle(a, 0, a), ChildLink::TopologyPruned);
}

#[test]
fn keys_with_one_board_have_their_own_nodes() {
    let mut repo = repository();
    let shared = NodeKey::board(64);
    let first = NodeKey::continuation(64, 1);
    let second = NodeKey::continuation(64, 2);
    let neighbour = NodeKey::board(128);
    for (key, value) in [(shared, 0.1), (first, 0.2), (second, 0.3), (neighbour, 0.4)] {
        set_value(&mut repo, key, one(value, 0.0));
        repo.recompute_graph_node(key);
    }
    assert_eq!(repo.len(), 4);
    assert!(close(node(&repo, shared).q(), 0.1, EPSILON));
    assert!(close(node(&repo, first).q(), 0.2, EPSILON));
    assert!(close(node(&repo, second).q(), 0.3, EPSILON));
    assert!(close(node(&repo, neighbour).q(), 0.4, EPSILON));
    assert!(repo.get(NodeKey::continuation(64, 3)).is_none());
    assert!(repo.get(NodeKey::board(65)).is_none());
    repo.get_or_insert(first);
    assert_eq!(repo.len(), 4);
}

#[test]
fn graph_one_worker_claims_evaluation_and_edge_reservation_balances() {
    let mut repo = repository();
    let key = NodeKey::board(123);
    let won = (0..8).filter(|_| repo.get_or_insert(key).try_begin_evaluation()).count();
    assert_eq!(won, 1);
    assert_eq!(node(&repo, key).expansion_state(), ExpansionState::Evaluating);
    repo.get_or_insert(key).publish_edges(&vec![(mv("b2", "b3"), F32(1.0))]);
    let edge = reserve(&mut repo, key, 0);
    assert_eq!(node(&repo, key).edges()[0].visits(), 1);
    complete(&mut repo, key, edge);
    assert_eq!(node(&repo, key).edges()[0].completed_visits(), 1);
}

#[test]
fn cancelled_reservation_restores_started_visit_count() {
    let mut repo = repository();
    let key = NodeKey::board(321);
    publish(&mut repo, key, &[(mv("b2", "b3"), 1.0)]);
    let edge = reserve(&mut repo, key, 0);
    cancel(&mut repo, key, edge);
    assert_eq!(node(&repo, key).edges()[0].visits(), 0);
    assert_eq!(node(&repo, key).edges()[0].completed_visits(), 0);
}

#[test]
fn split_virtual_mean_is_fully_removed_on_completion() {
    let mut repo = repository();
    let key = NodeKey::board(322);
    publish(&mut repo, key, &[(mv("b2", "b3"), 1.0)]);
    let parts = repo
        .get_or_insert(key)
        .reserve_edge_visits(0, 4, Some(F32(-0.25)))
        .expect("virtual mean reservation")
        .split(&vec![1, 3]);
    let reservation = EdgeReservation::merge(&parts);
    assert!((node(&repo, key).edges()[0].stats().virtual_wl_sum.0 + 1.0).abs() < EPSILON);

    complete(&mut repo, key, reservation);

    let stats = node(&repo, key).edges()[0].stats();
    assert_eq!(stats.visits, 4);
    assert_eq!(stats.virtual_wl_sum, F32(0.0));
}

#[test]
fn completing_and_cancelling_keep_reservations_balanced() {
    let mut repo = repository();
    let key = NodeKey::board(654);
    publish(&mut repo, key, &[(mv("b2", "b3"), 1.0)]);
    let completed = reserve(&mut repo, key, 0);
    let cancelled = reserve(&mut repo, key, 0);
    complete(&mut repo, key, completed);
    cancel(&mut repo, key, cancelled);
    assert_eq!(node(&repo, key).edges()[0].visits(), 1);
    assert_eq!(node(&repo, key).edges()[0].completed_visits(), 1);
}

#[test]
fn split_reservation_preserves_the_parent_visit_budget() {
    let mut repo = repository();
    let key = NodeKey::board(5);
    publish(&mut repo, key, &[(mv("b2", "b3"), 1.0)]);
    set_value(&mut repo, key, one(0.0, 0.0));
    let parts = repo
        .get_or_insert(key)
        .reserve_edge_visits(0, 4, None)
        .expect("weighted reservation")
        .split(&vec![1, 3]);
    assert_eq!(node(&repo, key).edges()[0].visits(), 4);
    for part in parts {
        complete(&mut repo, key, part);
    }
    let edge = node(&repo, key).edges()[0];
    assert_eq!(edge.completed_visits(), 4);
    assert_eq!(edge.in_flight_visits(), 0);
    assert_eq!(edge.stats().observations, 2);
    assert_eq!(edge.stats().observation_weight_sq_sum, 10);
}

#[test]
fn graph_failed_evaluation_returns_node_to_claimable_state() {
    let mut repo = repository();
    let key = NodeKey::board(456);
    claim(&mut repo, key);
    repo.get_or_insert(key).abort_evaluation();
    assert_eq!(node(&repo, key).expansion_state(), ExpansionState::Unexpanded);
    assert!(repo.get_or_insert(key).try_begin_evaluation());
}

#[test]
fn repository_failed_evaluation_returns_node_to_claimable_state() {
    let mut repo = repository();
    let key = NodeKey::root(456);
    claim(&mut repo, key);
    repo.get_or_insert(key).abort_evaluation();
    assert_eq!(node(&repo, key).expansion_state(), ExpansionState::Unexpanded);
    assert!(repo.get_or_insert(key).try_begin_evaluation());
}

#[test]
fn repository_one_worker_claims_evaluation_and_edge_reservation_balances() {
    let mut repo = repository();
    let key = NodeKey::root(123);
    let won = (0..8).filter(|_| repo.get_or_insert(key).try_begin_evaluation()).count();
    assert_eq!(won, 1);
    assert_eq!(node(&repo, key).expansion_state(), ExpansionState::Evaluating);
    repo.get_or_insert(key).publish_edges(&vec![(mv("b2", "b3"), F32(1.0))]);
    let edge = reserve(&mut repo, key, 0);
    assert_eq!(node(&repo, key).edges()[0].visits(), 1);
    complete_local(&mut repo, key, edge, one(0.5, 0.0));
    assert_eq!(node(&repo, key).edges()[0].completed_visits(), 1);
    assert!(close(node(&repo, key).edges()[0].stats().local_leaf.q(), 0.5, EPSILON));
}

#[test]
fn cancelled_reservation_does_not_leave_virtual_visit() {
    let mut repo = repository();
    let key = NodeKey::root(321);
    publish(&mut repo, key, &[(mv("b2", "b3"), 1.0)]);
    let edge = reserve(&mut repo, key, 0);
    cancel(&mut repo, key, edge);
    assert_eq!(node(&repo, key).edges()[0].visits(), 0);
    assert_eq!(node(&repo, key).edges()[0].completed_visits(), 0);
}

#[test]
fn expansion_states_have_their_numbers() {
    assert_eq!(ExpansionState::from_raw(0), ExpansionState::Unexpanded);
    assert_eq!(ExpansionState::from_raw(1), ExpansionState::Evaluating);
    assert_eq!(ExpansionState::from_raw(2), ExpansionState::Expanded);
    assert_eq!(ExpansionState::from_raw(3), ExpansionState::Terminal);
}

fn sticky(repo: &mut Repository, root: NodeKey, parent: NodeKey) -> [NodeKey; 2] {
    let replies = [NodeKey::board(901), NodeKey::board(902)];
    publish(repo, root, &[(mv("b2", "b3"), 1.0)]);
    bind(repo, root, 0, parent);
    publish(repo, parent, &[(mv("c3", "c4"), 0.5), (mv("d3", "d4"), 0.5)]);
    bind(repo, parent, 0, replies[0]);
    bind(repo, parent, 1, replies[1]);
    replies
}

#[test]
fn sticky_proof_needs_all_losing_replies_and_keeps_the_longest_loss() {
    let mut repo = repository();
    let root = NodeKey::root(1);
    let parent = NodeKey::board(900);
    let [first, second] = sticky(&mut repo, root, parent);

    mark_terminal(&mut repo, first, -1.0, 0.0, 2.0);
    repo.propagate_proven_bounds(&vec![root, parent, first], root);
    assert_eq!(node(&repo, parent).expansion_state(), ExpansionState::Expanded);

    mark_terminal(&mut repo, second, -1.0, 0.0, 6.0);
    repo.propagate_proven_bounds(&vec![root, parent, second], root);
    assert_eq!(node(&repo, parent).expansion_state(), ExpansionState::Terminal);
    assert_eq!(node(&repo, parent).terminal_wl(), Some((F32(1.0), F32(0.0))));
    assert_eq!(node(&repo, parent).terminal_plies_left(), Some(F32(7.0)));
    assert_ne!(node(&repo, root).expansion_state(), ExpansionState::Terminal);
}

#[test]
fn sticky_proof_keeps_the_shortest_forced_win() {
    let mut repo = repository();
    let root = NodeKey::root(2);
    let parent = NodeKey::board(900);
    let replies = sticky(&mut repo, root, parent);
    for (reply, m) in [(replies[0], 2.0), (replies[1], 6.0)] {
        mark_terminal(&mut repo, reply, 1.0, 0.0, m);
        repo.propagate_proven_bounds(&vec![root, parent, reply], root);
    }
    assert_eq!(node(&repo, parent).expansion_state(), ExpansionState::Terminal);
    assert_eq!(node(&repo, parent).terminal_wl(), Some((F32(-1.0), F32(0.0))));
    assert_eq!(node(&repo, parent).terminal_plies_left(), Some(F32(3.0)));
}

#[test]
fn subtrees_are_removed_and_judged_as_a_whole() {
    let mut repo = repository();
    let root = NodeKey::root(2);
    let parent = NodeKey::board(900);
    let [first, second] = sticky(&mut repo, root, parent);
    repo.get_or_insert(first);
    repo.get_or_insert(second);
    assert!(repo.subtree_is_settled(root));
    let pending = reserve(&mut repo, parent, 1);
    assert!(!repo.subtree_is_settled(root));
    assert!(!repo.is_settled());
    assert!(repo.subtree_is_settled(first));
    cancel(&mut repo, parent, pending);
    assert!(repo.is_settled());
    assert_eq!(repo.remove_subtree(parent), 3);
    assert_eq!(repo.len(), 1);
    assert!(repo.get(root).is_some());
    assert!(repo.get(second).is_none());
}

#[test]
fn variation_keeps_root_history_and_owns_its_path() {
    let root = history(&[1]);
    let event = event_at(7, &root);
    assert_eq!(event.variation.history().len(), 1);
    let played = mv("b2", "b3");
    let step = next(2);
    let child = step.child_board_key();
    let root_len = event.variation.root_len();
    let reservation = EdgeReservation { edge: 0, mv: played, visits: 1, virtual_wl_sum: F32(0.0) };
    let mut event = event;
    event.descend(child, reservation, &step);

    assert_eq!(event.variation.moves(), &vec![played]);
    assert_eq!(event.variation.root_len(), root_len);
    assert_eq!(event.generation, 7);
    assert_eq!(event.node_path(), &vec![NodeKey::board(1), child]);
    assert_eq!(event.variation.history().last(), step.position);
}

#[test]
fn first_path_repetition_enters_a_contextual_continuation_root() {
    let root = history(&[1, 2, 3, 4]);
    let event = event_at(8, &root);
    let step = NextPosition { position: position(1, false, 1), did_repeat: true, rule_context_hash: 5 };
    let child = event.repeated_child_key(&step).expect("first repetition");
    let reservation = EdgeReservation { edge: 0, mv: mv("d9", "e9"), visits: 1, virtual_wl_sum: F32(0.0) };
    let mut event = event;
    event.descend_continuation(child, reservation, &step);
    assert!(event.node_key.is_continuation());
    assert_eq!(event.variation.history().last().repetitions, 1);
    assert_eq!(event.tree_entries, vec![(0, child)]);
}

#[test]
fn opposite_ply_board_match_does_not_enter_the_continuation_tree() {
    let event = event_at(3, &history(&[9, 1, 1]));
    let step = NextPosition { position: position(9, true, 1), did_repeat: true, rule_context_hash: 5 };
    assert!(event.variation.history().positions.iter().any(|p| p.board_hash == 9));
    assert!(event.repeated_child_key(&step).is_none());
}

#[test]
fn a_board_that_the_rules_do_not_count_is_no_repetition() {
    let event = event_at(3, &history(&[9, 1]));
    let step = NextPosition { position: position(9, true, 0), did_repeat: false, rule_context_hash: 0 };
    assert!(event.repeated_child_key(&step).is_none());
}

#[test]
fn zeroing_move_leaves_the_continuation_tree() {
    let mut variation = Variation::root(&repeated(&[1, 2, 3, 4, 1], 5));
    let repeat = NextPosition { position: position(2, true, 1), did_repeat: true, rule_context_hash: 6 };
    assert!(repeat.child_key_for_history().is_continuation());
    variation.push(mv("d9", "e9"), &repeat);
    let zeroing = NextPosition { position: position(30, false, 0), did_repeat: false, rule_context_hash: 7 };
    assert!(matches!(zeroing.child_key_for_history(), NodeKey::GraphNode { .. }));
}

#[test]
fn real_history_can_enter_tree_then_zero_then_enter_tree_again() {
    let entered = repeated(&[1, 2, 3, 4, 1], 5);
    assert!(entered.key().is_continuation());
    let captured = history(&[1, 2, 3, 4, 1, 20]);
    assert!(matches!(captured.key(), NodeKey::GraphNode { .. }));
    let again = repeated(&[1, 2, 3, 4, 1, 20, 21, 22, 23, 20], 9);
    assert!(again.key().is_continuation());
    assert_ne!(again.key(), captured.key());
}

#[test]
fn event_backprop_completes_every_reservation_with_alternating_value() {
    let mut repo = repository();
    let mut event = event_at(1, &history(&[1]));
    let root = event.node_key;
    publish(&mut repo, root, &[(mv("b2", "b3"), 1.0)]);
    set_value(&mut repo, root, one(0.0, 0.0));
    let child = NodeKey::board(42);
    bind(&mut repo, root, 0, child);
    set_value(&mut repo, child, with_plies(0.4, 0.2, 2.0));
    let reservation = reserve(&mut repo, root, 0);
    event.descend(child, reservation, &next(42));

    BackpropEvent::complete_batch(&vec![BackpropEvent::evaluation(event)], &mut repo);

    let edge = node(&repo, root).edges()[0];
    assert_eq!(edge.visits(), 1);
    assert_eq!(edge.completed_visits(), 1);
    assert_eq!(node(&repo, root).completed_visits(), 2);
    assert!((node(&repo, root).q().0 + 0.2).abs() < EPSILON);
    assert!(close(node(&repo, root).m(), 1.5, EPSILON));
    assert_eq!(node(&repo, child).completed_visits(), 1);
    assert!(close(node(&repo, child).q(), 0.4, EPSILON));
    assert!(close(node(&repo, child).m(), 2.0, EPSILON));
}

#[test]
fn backprop_proves_a_terminal_grandchild_immediately() {
    let mut repo = repository();
    let mut event = event_at(18, &history(&[1]));
    let root = event.node_key;
    let parent = NodeKey::board(18_001);
    let terminal = NodeKey::board(18_002);
    publish(&mut repo, root, &[(mv("b2", "b3"), 1.0)]);
    set_value(&mut repo, root, one(0.0, 0.0));
    bind(&mut repo, root, 0, parent);
    publish(&mut repo, parent, &[(mv("b7", "b6"), 1.0)]);
    set_value(&mut repo, parent, one(0.0, 0.0));
    bind(&mut repo, parent, 0, terminal);
    mark_terminal(&mut repo, terminal, 1.0, 0.0, 0.0);

    let first = reserve(&mut repo, root, 0);
    event.descend(parent, first, &next(18_001));
    let second = reserve(&mut repo, parent, 0);
    event.descend(terminal, second, &next(18_002));
    BackpropEvent::complete_batch(&vec![BackpropEvent::evaluation(event)], &mut repo);

    assert_eq!(node(&repo, parent).expansion_state(), ExpansionState::Terminal);
    assert_eq!(node(&repo, parent).terminal_value(), Some((F32(-1.0), F32(0.0), F32(1.0))));
    assert_eq!(node(&repo, root).edges()[0].completed_visits(), 1);
    assert_eq!(node(&repo, root).expansion_state(), ExpansionState::Expanded);
}

#[test]
fn continuation_entry_samples_the_terminal_proof_from_this_event() {
    let mut repo = repository();
    let mut event = event_at(19, &history(&[1]));
    let root = event.node_key;
    let continuation = NodeKey::continuation(19_001, 19_002);
    let terminal = NodeKey::continuation(19_003, 19_004);
    publish(&mut repo, root, &[(mv("b2", "b3"), 1.0)]);
    set_value(&mut repo, root, one(0.0, 0.0));
    publish(&mut repo, continuation, &[(mv("b7", "b6"), 1.0)]);
    set_value(&mut repo, continuation, one(0.0, 0.0));
    bind(&mut repo, continuation, 0, terminal);
    mark_terminal(&mut repo, terminal, 1.0, 0.0, 0.0);

    let entry = reserve(&mut repo, root, 0);
    event.descend_continuation(continuation, entry, &next(19_001));
    let inside = reserve(&mut repo, continuation, 0);
    event.descend(terminal, inside, &next(19_003));
    BackpropEvent::complete_batch(&vec![BackpropEvent::evaluation(event)], &mut repo);

    assert_eq!(node(&repo, continuation).terminal_value(), Some((F32(-1.0), F32(0.0), F32(1.0))));
    let stats = node(&repo, root).edges()[0].stats();
    assert_eq!(stats.local_leaf.visits, 1);
    assert!((stats.local_leaf.wl_sum.0 + 1.0).abs() < EPSILON);
}

#[test]
fn batch_backprop_merges_node_updates_and_completes_each_edge_visit() {
    let mut repo = repository();
    let mut first = event_at(1, &history(&[1]));
    let mut second = event_at(1, &history(&[1]));
    let root = first.node_key;
    publish(&mut repo, root, &[(mv("b2", "b3"), 1.0)]);
    set_value(&mut repo, root, one(0.0, 0.0));
    let child = NodeKey::board(42);
    bind(&mut repo, root, 0, child);
    set_value(&mut repo, child, one(0.3, 0.3));
    let reservation = reserve(&mut repo, root, 0);
    first.descend(child, reservation, &next(42));
    let reservation = reserve(&mut repo, root, 0);
    second.descend(child, reservation, &next(42));

    let result = BackpropEvent::complete_batch(
        &vec![BackpropEvent::evaluation(first), BackpropEvent::evaluation(second)],
        &mut repo,
    );

    let edge = node(&repo, root).edges()[0];
    assert_eq!(result.completed_playouts, 2);
    assert_eq!(result.completed_depth, 4);
    assert_eq!(result.max_depth, 2);
    assert_eq!(edge.visits(), 2);
    assert_eq!(edge.completed_visits(), 2);
    assert_eq!(node(&repo, root).completed_visits(), 3);
    assert!((node(&repo, root).q().0 + 0.2).abs() < EPSILON);
    assert_eq!(node(&repo, child).completed_visits(), 1);
    assert!(close(node(&repo, child).q(), 0.3, EPSILON));
}

#[test]
fn continuation_tree_backprop_keeps_its_value_local_to_the_entry_edge() {
    let mut repo = repository();
    let mut event = event_at(2, &history(&[1]));
    let root = event.node_key;
    publish(&mut repo, root, &[(mv("b2", "b3"), 1.0)]);
    set_value(&mut repo, root, one(0.0, 0.0));
    let continuation = NodeKey::continuation(42, 99);
    set_value(&mut repo, continuation, one(0.6, 0.0));
    let entry = reserve(&mut repo, root, 0);
    event.descend_continuation(continuation, entry, &next(42));
    BackpropEvent::complete_batch(&vec![BackpropEvent::evaluation(event)], &mut repo);

    let edge = node(&repo, root).edges()[0];
    assert_eq!(edge.completed_visits(), 1);
    assert!(edge.child_key().is_none());
    assert_eq!(node(&repo, root).completed_visits(), 2);
    assert!((node(&repo, root).q().0 + 0.3).abs() < EPSILON);
}

#[test]
fn continuation_tree_updates_inside_then_samples_its_root_at_the_shard_entry() {
    let mut repo = repository();
    let mut event = event_at(12, &history(&[1]));
    let shard = event.node_key;
    publish(&mut repo, shard, &[(mv("b2", "b3"), 1.0)]);
    set_value(&mut repo, shard, one(0.0, 0.0));
    let continuation = NodeKey::continuation(42, 99);
    publish(&mut repo, continuation, &[(mv("c2", "c3"), 1.0)]);
    set_value(&mut repo, continuation, with_plies(0.4, 0.0, 2.0));
    let leaf = NodeKey::continuation(43, 100);
    set_value(&mut repo, leaf, with_plies(0.8, 0.0, 3.0));
    bind(&mut repo, continuation, 0, leaf);

    let entry = reserve(&mut repo, shard, 0);
    event.descend_continuation(continuation, entry, &next(42));
    let inside = reserve(&mut repo, continuation, 0);
    event.descend(leaf, inside, &next(43));
    BackpropEvent::complete_batch(&vec![BackpropEvent::evaluation(event)], &mut repo);

    assert_eq!(node(&repo, leaf).completed_visits(), 1);
    assert!(close(node(&repo, leaf).q(), 0.8, EPSILON));
    assert_eq!(node(&repo, continuation).edges()[0].completed_visits(), 1);
    assert_eq!(node(&repo, continuation).completed_visits(), 2);
    assert!((node(&repo, continuation).q().0 + 0.2).abs() < EPSILON);
    let edge = node(&repo, shard).edges()[0];
    assert_eq!(edge.completed_visits(), 1);
    assert!(edge.child_key().is_none());
    assert!((edge.stats().local_leaf.q().0 + 0.2).abs() < EPSILON);
    assert_eq!(node(&repo, shard).completed_visits(), 2);
    assert!(close(node(&repo, shard).q(), 0.1, EPSILON));
}

#[test]
fn backprop_handles_a_second_tree_after_a_zeroing_graph_segment() {
    let mut repo = repository();
    let mut event = event_at(13, &history(&[1]));
    let root = event.node_key;
    let first_tree = NodeKey::continuation(42, 1);
    let graph = NodeKey::board(43);
    let second_tree = NodeKey::continuation(44, 2);
    for (key, played, value) in [
        (root, mv("b2", "b3"), 0.0),
        (first_tree, mv("b9", "b8"), 0.2),
        (graph, mv("c3", "c4"), 0.4),
    ] {
        publish(&mut repo, key, &[(played, 1.0)]);
        set_value(&mut repo, key, one(value, 0.0));
    }
    set_value(&mut repo, second_tree, one(0.6, 0.0));
    bind(&mut repo, first_tree, 0, graph);

    let first = reserve(&mut repo, root, 0);
    event.descend_continuation(first_tree, first, &next(42));
    let second = reserve(&mut repo, first_tree, 0);
    event.descend(graph, second, &next(43));
    let third = reserve(&mut repo, graph, 0);
    event.descend_continuation(second_tree, third, &next(44));
    BackpropEvent::complete_batch(&vec![BackpropEvent::evaluation(event)], &mut repo);

    assert_eq!(node(&repo, root).edges()[0].completed_visits(), 1);
    assert_eq!(node(&repo, first_tree).edges()[0].completed_visits(), 1);
    assert_eq!(node(&repo, graph).edges()[0].completed_visits(), 1);
}

#[test]
fn path_terminal_at_continuation_root_uses_its_local_rule_value() {
    let mut repo = repository();
    let mut event = event_at(9, &history(&[1]));
    let root = event.node_key;
    publish(&mut repo, root, &[(mv("b2", "b3"), 1.0)]);
    set_value(&mut repo, root, one(0.0, 0.0));
    let continuation = NodeKey::continuation(42, 100);
    repo.get_or_insert(continuation);
    let entry = reserve(&mut repo, root, 0);
    event.descend_continuation(continuation, entry, &next(42));
    event.discard_leaf_node();
    BackpropEvent::complete_batch(&vec![BackpropEvent::local_leaf(event, one(0.8, 0.0))], &mut repo);

    assert_eq!(node(&repo, root).edges()[0].completed_visits(), 1);
    assert!(close(node(&repo, root).edges()[0].stats().local_leaf.q(), 0.8, EPSILON));
}

#[test]
fn a_local_result_belongs_to_the_last_edge_even_where_it_left_the_graph() {
    let mut repo = repository();
    let mut event = event_at(9, &history(&[1]));
    let root = event.node_key;
    let middle = NodeKey::board(50);
    let continuation = NodeKey::continuation(42, 100);
    publish(&mut repo, root, &[(mv("b2", "b3"), 1.0)]);
    set_value(&mut repo, root, one(0.0, 0.0));
    publish(&mut repo, middle, &[(mv("c2", "c3"), 1.0)]);
    set_value(&mut repo, middle, one(0.0, 0.0));
    bind(&mut repo, root, 0, middle);
    repo.get_or_insert(continuation);
    let first = reserve(&mut repo, root, 0);
    event.descend(middle, first, &next(50));
    let entry = reserve(&mut repo, middle, 0);
    event.descend_continuation(continuation, entry, &next(42));
    event.discard_leaf_node();
    BackpropEvent::complete_batch(&vec![BackpropEvent::local_leaf(event, one(0.8, 0.0))], &mut repo);

    assert_eq!(node(&repo, middle).edges()[0].stats().local_leaf.visits, 1);
    assert!(close(node(&repo, middle).edges()[0].stats().local_leaf.q(), 0.8, EPSILON));
    assert_eq!(node(&repo, root).edges()[0].stats().local_leaf.visits, 0);
    assert_eq!(node(&repo, root).edges()[0].completed_visits(), 1);
}

#[test]
fn path_terminal_samples_do_not_make_a_shared_edge_first_writer_wins() {
    let mut repo = repository();
    let root = event_at(4, &history(&[1])).node_key;
    publish(&mut repo, root, &[(mv("b2", "b3"), 1.0)]);
    set_value(&mut repo, root, one(0.0, 0.0));
    let child = NodeKey::board(42);
    bind(&mut repo, root, 0, child);
    for value in [0.6, -0.2] {
        let mut event = event_at(4, &history(&[1]));
        let reservation = reserve(&mut repo, root, 0);
        event.descend(child, reservation, &next(42));
        event.discard_leaf_node();
        BackpropEvent::complete_batch(&vec![BackpropEvent::local_leaf(event, one(value, 0.0))], &mut repo);
    }
    let stats = node(&repo, root).edges()[0].stats();
    assert_eq!(stats.local_leaf.visits, 2);
    assert!(close(stats.local_leaf.q(), 0.2, EPSILON));
}

#[test]
fn path_terminal_discards_its_unshared_leaf_before_backprop() {
    let mut repo = repository();
    let mut event = event_at(3, &history(&[1]));
    let root = event.node_key;
    publish(&mut repo, root, &[(mv("b2", "b3"), 1.0)]);
    set_value(&mut repo, root, one(0.0, 0.0));
    let step = next(2);
    let child = step.child_board_key();
    bind(&mut repo, root, 0, child);
    claim(&mut repo, child);
    let reservation = reserve(&mut repo, root, 0);
    event.descend(child, reservation, &step);
    repo.get_or_insert(child).abort_evaluation();
    event.discard_leaf_node();
    BackpropEvent::complete_batch(&vec![BackpropEvent::local_leaf(event, one(0.0, 1.0))], &mut repo);

    assert_eq!(node(&repo, child).expansion_state(), ExpansionState::Unexpanded);
    assert_eq!(node(&repo, root).edges()[0].completed_visits(), 1);
    assert_eq!(node(&repo, root).completed_visits(), 2);
}

#[test]
fn cancelling_an_event_gives_all_its_visits_back() {
    let mut repo = repository();
    let mut event = event_at(3, &history(&[1]));
    let root = event.node_key;
    let child = NodeKey::board(2);
    publish(&mut repo, root, &[(mv("b2", "b3"), 1.0)]);
    publish(&mut repo, child, &[(mv("c2", "c3"), 1.0)]);
    bind(&mut repo, root, 0, child);
    let first = reserve(&mut repo, root, 0);
    event.descend(child, first, &next(2));
    let second = reserve(&mut repo, child, 0);
    event.descend(NodeKey::board(3), second, &next(3));
    assert!(!repo.is_settled());
    event.cancel(&mut repo);
    assert!(repo.is_settled());
    assert_eq!(node(&repo, root).edges()[0].visits(), 0);
    assert_eq!(node(&repo, child).edges()[0].visits(), 0);
}

fn facts() -> LeafFacts {
    LeafFacts {
        has_legal_move: true,
        has_mating_material: true,
        repetitions: 0,
        rule60_ply: 0,
        rule_judge: GameResult::Undecided,
        game_result: GameResult::Undecided,
        black_to_move: false,
    }
}

#[test]
fn extension_checkmated_side_to_move_is_a_terminal_win_for_the_incoming_edge() {
    let mated = LeafFacts { has_legal_move: false, black_to_move: true, ..facts() };
    assert!(matches!(
        classify_extension::<F32>(&mated, 1),
        ExtensionKind::SharedTerminal { wl: F32(wl), draw: F32(draw), plies_left: F32(plies) }
            if wl == 1.0 && draw == 0.0 && plies == 0.0
    ));
}

#[test]
fn rule60_terminal_is_path_local() {
    let drawn = LeafFacts { rule60_ply: 120, game_result: GameResult::Draw, ..facts() };
    for depth in [0, 3] {
        assert!(matches!(
            classify_extension::<F32>(&drawn, depth),
            ExtensionKind::PathTerminal { wl: F32(wl), draw: F32(draw), plies_left: F32(plies) }
                if wl == 0.0 && draw == 1.0 && plies == 0.0
        ));
    }
}

#[test]
fn extension_first_perpetual_check_cycle_remains_evaluable() {
    let first = LeafFacts { repetitions: 1, rule_judge: GameResult::WhiteWon, ..facts() };
    assert!(matches!(classify_extension::<F32>(&first, 5), ExtensionKind::Evaluate));
    let second = LeafFacts { repetitions: 2, ..first };
    assert!(matches!(
        classify_extension::<F32>(&second, 5),
        ExtensionKind::PathTerminal { wl: F32(wl), draw: F32(draw), .. } if wl == 1.0 && draw == 0.0
    ));
}

#[test]
fn repeated_check_cycle_from_game_history_is_terminal_at_root() {
    let ended = LeafFacts { repetitions: 2, game_result: GameResult::BlackWon, ..facts() };
    assert!(matches!(classify_extension::<F32>(&ended, 0), ExtensionKind::PathTerminal { .. }));
}

#[test]
fn positions_without_mating_material_are_drawn_for_all_lines() {
    let bare = LeafFacts { has_mating_material: false, repetitions: 2, ..facts() };
    assert!(matches!(
        classify_extension::<F32>(&bare, 4),
        ExtensionKind::SharedTerminal { wl: F32(wl), draw: F32(draw), .. } if wl == 0.0 && draw == 1.0
    ));
}

fn visited_children(repo: &mut Repository, root: NodeKey, children: &[(NodeKey, f32, usize)]) {
    for (index, &(key, value, visits)) in children.iter().enumerate() {
        set_value(repo, key, one(value, 0.0));
        repo.recompute_graph_node(key);
        bind(repo, root, index, key);
        for _ in 0..visits {
            visit(repo, root, index);
        }
    }
    repo.recompute_graph_node(root);
}

#[test]
fn root_lcb_can_choose_a_well_visited_higher_q_challenger() {
    let mut repo = repository();
    let root = NodeKey::board(1);
    let first = mv("a0", "a1");
    let challenger = mv("b0", "b1");
    publish(&mut repo, root, &[(first, 0.8), (challenger, 0.2)]);
    set_value(&mut repo, root, one(0.0, 0.0));
    visited_children(&mut repo, root, &[(NodeKey::board(2), 0.20, 100), (NodeKey::board(3), 0.25, 20)]);

    let none: Vec<Move> = Vec::new();
    let params = Params::default();
    assert_eq!(best_move_filtered_with_params(&repo, root, false, &none, &params), Some(challenger));
    let n_first = Params { lcb_stdevs: F32(0.0), ..params };
    assert_eq!(best_move_filtered_with_params(&repo, root, false, &none, &n_first), Some(first));
    let too_few_visits = Params { lcb_min_visit_fraction: F32(0.21), ..params };
    assert_eq!(best_move_filtered_with_params(&repo, root, false, &none, &too_few_visits), Some(first));
}

#[test]
fn root_lcb_keeps_n_first_when_its_advantage_is_too_small() {
    let mut repo = repository();
    let root = NodeKey::board(4);
    let first = mv("a0", "a1");
    let challenger = mv("b0", "b1");
    publish(&mut repo, root, &[(first, 0.8), (challenger, 0.2)]);
    set_value(&mut repo, root, one(0.0, 0.0));
    visited_children(&mut repo, root, &[(NodeKey::board(41), 0.998, 100), (NodeKey::board(42), 0.9999, 80)]);

    let edges = node(&repo, root).edges();
    let first_lcb = edge_lcb(&repo, &edges[0], F32(5.0)).expect("first LCB").0;
    let challenger_lcb = edge_lcb(&repo, &edges[1], F32(5.0)).expect("challenger LCB").0;
    assert!(challenger_lcb > first_lcb);
    assert!(challenger_lcb - first_lcb < 0.01);
    assert_eq!(
        best_move_filtered_with_params(&repo, root, false, &Vec::new(), &Params::default()),
        Some(first)
    );
}

#[test]
fn root_lcb_penalizes_an_unstable_action_value() {
    let mut repo = repository();
    let root = NodeKey::board(10);
    let noisy = mv("a0", "a1");
    let stable = mv("b0", "b1");
    publish(&mut repo, root, &[(noisy, 0.8), (stable, 0.2)]);
    set_value(&mut repo, root, one(0.0, 0.0));
    for index in 0..100 {
        let value = if index % 2 == 0 { 0.9 } else { -0.3 };
        let reservation = reserve(&mut repo, root, 0);
        complete_local(&mut repo, root, reservation, one(value, 0.0));
    }
    for _ in 0..20 {
        let reservation = reserve(&mut repo, root, 1);
        complete_local(&mut repo, root, reservation, one(0.25, 0.0));
    }
    repo.recompute_graph_node(root);

    let edges = node(&repo, root).edges();
    assert!(edge_value(&repo, &edges[0]).0 > edge_value(&repo, &edges[1]).0);
    assert_eq!(
        best_move_filtered_with_params(&repo, root, false, &Vec::new(), &Params::default()),
        Some(stable)
    );
}

#[test]
fn terminal_win_outranks_higher_n_terminal_loss() {
    let mut repo = repository();
    let root = NodeKey::board(7);
    let edges = [(mv("a0", "a1"), 0.10), (mv("b0", "b1"), 0.20), (mv("c0", "c1"), 0.70)];
    publish(&mut repo, root, &edges);
    set_value(&mut repo, root, one(0.0, 0.0));
    let place = |repo: &Repository, target: Move| {
        node(repo, root).edges().iter().position(|edge| edge.mv() == target).expect("edge")
    };
    let loss = place(&repo, mv("a0", "a1"));
    let win = place(&repo, mv("b0", "b1"));
    let other = place(&repo, mv("c0", "c1"));
    for (edge, key, wl, visits) in [(loss, NodeKey::board(71), -1.0, 50), (win, NodeKey::board(72), 1.0, 5)] {
        bind(&mut repo, root, edge, key);
        mark_terminal(&mut repo, key, wl, 0.0, 0.0);
        for _ in 0..visits {
            visit(&mut repo, root, edge);
        }
    }
    let other_key = NodeKey::board(73);
    bind(&mut repo, root, other, other_key);
    set_value(&mut repo, other_key, one(0.1, 0.0));
    repo.recompute_graph_node(other_key);
    for _ in 0..20 {
        visit(&mut repo, root, other);
    }
    repo.recompute_graph_node(root);

    assert_eq!(best_move(&repo, root, false).expect("best"), mv("b0", "b1"));
}

#[test]
fn best_mate_reports_proven_terminal_child_distance() {
    let mut repo = repository();
    let root = NodeKey::board(99);
    publish(&mut repo, root, &[(mv("b2", "b3"), 1.0)]);
    let child = NodeKey::board(1000);
    bind(&mut repo, root, 0, child);
    mark_terminal(&mut repo, child, 1.0, 0.0, 3.0);
    assert_eq!(best_mate_with_params(&repo, root, &Vec::new(), &Params::default()), Some(2));
}

#[test]
fn best_mate_reports_a_checkmated_root() {
    let mut repo = repository();
    mark_terminal(&mut repo, NodeKey::board(100), 1.0, 0.0, 0.0);
    assert_eq!(best_mate_with_params(&repo, NodeKey::board(100), &Vec::new(), &Params::default()), Some(-1));
}

#[test]
fn terminal_root_has_no_best_edge() {
    let mut repo = repository();
    let root = NodeKey::board(100);
    mark_terminal(&mut repo, root, 1.0, 0.0, 0.0);
    repo.recompute_graph_node(root);
    assert_eq!(best_move(&repo, root, true), None);
    assert!(principal_variation(&repo, root, true).is_empty());
}

#[test]
fn root_move_filter_applies_before_visits() {
    let mut repo = repository();
    let root = NodeKey::board(5);
    publish(&mut repo, root, &[(mv("a0", "a1"), 0.9), (mv("b0", "b1"), 0.1)]);
    let filter = vec![mv("b0", "b1")];
    assert_eq!(best_move_filtered(&repo, root, false, &filter).expect("fallback"), mv("b0", "b1"));
    assert_eq!(best_move_filtered(&repo, root, true, &filter).expect("fallback"), mv("b9", "b8"));
}

#[test]
fn root_output_skips_topology_pruned_edges() {
    let mut repo = repository();
    let root = NodeKey::board(5);
    let child = NodeKey::board(6);
    let pruned = mv("a0", "a1");
    let usable = mv("b0", "b1");
    publish(&mut repo, root, &[(pruned, 0.9), (usable, 0.1)]);
    publish(&mut repo, child, &[(mv("c0", "c1"), 1.0)]);
    assert_eq!(repo.bind_child_or_cut_cycle(child, 0, root), ChildLink::Bound);
    let edge = node(&repo, root).edges().iter().position(|edge| edge.mv() == pruned).expect("pruned edge");
    assert_eq!(repo.bind_child_or_cut_cycle(root, edge, child), ChildLink::TopologyPruned);

    assert_eq!(best_move(&repo, root, false), Some(usable));
    let variations = root_variations(&repo, root, false, &Vec::new(), 2, &Params::default());
    assert_eq!(variations.len(), 1);
    assert_eq!(variations[0].pv, vec![usable]);
}

#[test]
fn root_variations_use_bestmove_ranking_and_edge_values() {
    let mut repo = repository();
    let root = NodeKey::board(19);
    let first = mv("a0", "a1");
    let second = mv("b0", "b1");
    publish(&mut repo, root, &[(first, 0.9), (second, 0.1)]);
    set_value(&mut repo, root, one(0.0, 0.0));
    visited_children(&mut repo, root, &[(NodeKey::board(191), 0.1, 3), (NodeKey::board(192), 0.2, 5)]);

    let variations = root_variations(&repo, root, false, &Vec::new(), 2, &Params::default());
    assert_eq!(variations.len(), 2);
    assert_eq!(variations[0].pv, vec![second]);
    assert_eq!(variations[1].pv, vec![first]);
    assert!(close(variations[0].wl, 0.2, EPSILON));
    assert!(close(variations[1].wl, 0.1, EPSILON));
}

#[test]
fn root_snapshot_reports_completed_and_in_flight_visits_separately() {
    let mut repo = repository();
    let root = NodeKey::board(19);
    publish(&mut repo, root, &[(mv("a0", "a1"), 0.9), (mv("b0", "b1"), 0.1)]);
    set_value(&mut repo, root, one(0.0, 0.0));
    visited_children(&mut repo, root, &[(NodeKey::board(191), 0.1, 15), (NodeKey::board(192), 0.2, 0)]);
    let pending = reserve(&mut repo, root, 1);

    let stats = root_stats(&repo, root).expect("root snapshot");
    assert_eq!(stats.completed_visits, 16);
    assert!(stats.edges.iter().any(|edge| edge.completed_visits > 0));
    assert_eq!(stats.edges[1].completed_visits, 0);
    assert_eq!(stats.edges[1].started_visits, 1);
    cancel(&mut repo, root, pending);
    assert!(root_stats(&repo, NodeKey::board(404)).is_none());
}

#[test]
fn shorter_terminal_draw_outranks_longer_draw_at_equal_n() {
    let mut repo = repository();
    let root = NodeKey::board(11);
    publish(&mut repo, root, &[(mv("a0", "a1"), 0.5), (mv("b0", "b1"), 0.5)]);
    for (target, key, plies) in
        [(mv("a0", "a1"), NodeKey::board(111), 2.0), (mv("b0", "b1"), NodeKey::board(112), 8.0)]
    {
        let edge = node(&repo, root).edges().iter().position(|edge| edge.mv() == target).unwrap();
        bind(&mut repo, root, edge, key);
        mark_terminal(&mut repo, key, 0.0, 1.0, plies);
        visit(&mut repo, root, edge);
    }
    assert_eq!(best_move(&repo, root, false).expect("best"), mv("a0", "a1"));
    set_value(&mut repo, root, one(0.0, 0.0));
    repo.recompute_graph_node(root);
    assert_eq!(best_move(&repo, root, false).expect("best"), mv("a0", "a1"));
}

#[test]
fn principal_variation_stops_at_a_graph_cycle() {
    let mut repo = repository();
    let root = NodeKey::board(400);
    let played = mv("a0", "a1");
    publish(&mut repo, root, &[(played, 1.0)]);
    set_value(&mut repo, root, one(0.0, 0.0));
    bind(&mut repo, root, 0, root);
    visit(&mut repo, root, 0);
    repo.recompute_graph_node(root);
    assert_eq!(principal_variation(&repo, root, false), vec![played]);
}

fn walk(repo: &Repository, root: NodeKey, keys: &[NodeKey]) -> Vec<Move> {
    let key_after = |moves: &Vec<Move>| keys[moves.len() - 1];
    let none = Vec::new();
    let params = Params::default();
    let pv = principal_variation_with_history_and_params(repo, root, &key_after, false, &none, &params);
    let reports = root_variations_with_history(repo, root, &key_after, false, &none, 3, &params);
    assert_eq!(reports.len(), 1);
    assert_eq!(reports[0].pv, pv);
    assert_eq!(reports[0].wl, root_variations(repo, root, false, &none, 3, &params)[0].wl);
    pv
}

#[test]
fn history_aware_pv_crosses_an_unbound_continuation_entry() {
    let mut repo = repository();
    let root = NodeKey::board(4);
    let continuation = NodeKey::continuation(1, 5);
    let after_reply = NodeKey::continuation(2, 6);
    let entry_move = mv("e2", "d2");
    let reply = mv("d9", "e9");
    publish(&mut repo, root, &[(entry_move, 1.0)]);
    set_value(&mut repo, root, one(0.0, 0.0));
    visit(&mut repo, root, 0);
    publish(&mut repo, continuation, &[(reply, 1.0)]);
    set_value(&mut repo, continuation, one(0.0, 0.0));
    visit(&mut repo, continuation, 0);
    repo.get_or_insert(after_reply);
    repo.recompute_graph_node(continuation);

    assert!(node(&repo, root).edges()[0].child_key().is_none());
    let pv = walk(&repo, root, &[continuation, after_reply]);
    assert_eq!(pv.len(), 2);
    assert_eq!(pv[0], entry_move);
}

fn expand_pv_node(repo: &mut Repository, key: NodeKey, played: Move, child: Option<NodeKey>) {
    publish(repo, key, &[(played, 1.0)]);
    set_value(repo, key, one(0.9, 0.0));
    if let Some(child) = child {
        bind(repo, key, 0, child);
    }
    visit(repo, key, 0);
    repo.recompute_graph_node(key);
}

#[test]
fn history_pv_continues_past_a_bound_graph_cycle() {
    let mut repo = repository();
    let keys = [
        NodeKey::board(1),
        NodeKey::board(2),
        NodeKey::board(3),
        NodeKey::board(4),
        NodeKey::continuation(1, 9),
    ];
    let moves = [mv("e0", "e1"), mv("f0", "f1"), mv("e1", "e0"), mv("f1", "f0")];
    let deviate = mv("e6", "e7");
    for index in 0..3 {
        expand_pv_node(&mut repo, keys[index], moves[index], Some(keys[index + 1]));
    }
    expand_pv_node(&mut repo, keys[3], moves[3], Some(keys[0]));
    expand_pv_node(&mut repo, keys[4], deviate, None);

    let graph_only = principal_variation(&repo, keys[0], false);
    assert_eq!(graph_only.len(), 4);
    assert_eq!(graph_only[0], moves[0]);

    let path = [keys[1], keys[2], keys[3], keys[4], NodeKey::board(77)];
    let pv = walk(&repo, keys[0], &path);
    assert_eq!(pv.len(), 5);
    assert_eq!(pv[0], moves[0]);
    assert_eq!(pv[4], deviate);
}

#[test]
fn commands_are_refused_with_their_reasons() {
    let go = GoParams::default;
    let cases: Vec<(GoParams, &str)> = vec![
        (GoParams { depth: Some(3), ..go() }, "go depth is not supported"),
        (GoParams { mate: Some(1), ..go() }, "go mate is not supported"),
        (GoParams { nodes: Some(0), ..go() }, "go nodes must be positive"),
        (GoParams { movetime: Some(-1), ..go() }, "go movetime must not be negative"),
        (
            GoParams { wtime: Some(-1), ..go() },
            "go clock values must be non-negative and movestogo positive",
        ),
        (
            GoParams { wtime: Some(1), movestogo: Some(0), ..go() },
            "go clock values must be non-negative and movestogo positive",
        ),
        (GoParams { btime: Some(5), ..go() }, "go clock is missing side-to-move time"),
        (
            GoParams { wtime: Some(5), movetime: Some(5), ..go() },
            "go movetime cannot be combined with clock fields",
        ),
        (
            GoParams { infinite: true, nodes: Some(5), ..go() },
            "go infinite cannot be combined with nodes, movetime, or clock fields",
        ),
        (go(), "go requires nodes, movetime, clock fields, or infinite"),
    ];
    for (command, reason) in cases {
        assert_eq!(validate_go(Some(false), &command).err().expect("refused").message(), reason);
    }
    let clock = GoParams { wtime: Some(5), ..go() };
    assert_eq!(validate_go(None, &clock).err().expect("refused").message(), "position is not configured");
    assert!(validate_go(Some(false), &clock).is_ok());
    assert!(validate_go(None, &GoParams { infinite: true, ..go() }).is_ok());
}

#[test]
fn limits_follow_the_command() {
    let go = GoParams { nodes: Some(8), movetime: Some(250), ..GoParams::default() };
    assert!(validate_go(None, &go).is_ok());
    let limits = limits_of(&go, 1_000, Some(9_000));
    assert_eq!(limits.max_playouts, Some(8));
    assert_eq!(limits.deadline_ms, Some(1_250));
    let go = GoParams { wtime: Some(60_000), ..GoParams::default() };
    assert_eq!(limits_of(&go, 1_000, Some(9_000)).deadline_ms, Some(9_000));
}

fn state() -> SearchState<F32> {
    SearchState::new(16, WorkerCounts { gather: 1, eval: 1, backprop: 1 })
}

#[test]
fn mini_batch_size_rebuilds_workers_for_the_next_job() {
    let mut state = state();
    state.set_position(&history(&[1]), &Vec::new()).expect("position");
    state.set_mini_batch_size(2);
    let first = state.begin_search(&Vec::new(), &Vec::new()).expect("first search");
    assert_eq!(first.mini_batch_size, 2);
    state.set_mini_batch_size(4);
    assert_eq!(first.mini_batch_size, 2);
    let second = state.begin_search(&Vec::new(), &Vec::new()).expect("second search");
    assert_eq!(second.mini_batch_size, 4);
    assert_eq!((first.generation, second.generation), (1, 2));
}

#[test]
fn search_params_and_worker_counts_apply_to_the_next_job() {
    let mut state = state();
    state.set_position(&history(&[1]), &Vec::new()).expect("position");
    state.set_search_params(F32(1.5), F32(20_000.0), F32(2.5), F32(0.4));
    state.set_worker_counts(WorkerCounts { gather: 2, eval: 3, backprop: 1 });
    state.set_multi_pv(3);
    state.set_nn_cache_size_power_of_two(20);
    let search = state.begin_search(&Vec::new(), &Vec::new()).expect("search");
    assert_eq!(search.params.cpuct, F32(1.5));
    assert_eq!(search.params.cpuct_base, F32(20_000.0));
    assert_eq!(search.params.cpuct_factor, F32(2.5));
    assert_eq!(search.params.fpu_reduction, F32(0.4));
    assert_eq!(search.workers, WorkerCounts { gather: 2, eval: 3, backprop: 1 });
    assert_eq!(search.multi_pv, 3);
    assert_eq!(search.nn_cache_size_power_of_two, Some(20));
    let next = state.begin_search(&Vec::new(), &Vec::new()).expect("search");
    assert_eq!(next.nn_cache_size_power_of_two, None);
}

#[test]
fn state_reuses_graph_and_worker_pool_between_completed_searches() {
    let mut state = state();
    state.set_position(&history(&[1]), &Vec::new()).expect("set startpos");
    let played = mv("a0", "a1");
    {
        let graph = state.graph.as_mut().expect("graph");
        publish(&mut graph.repository, NodeKey::board(1), &[(played, 1.0)]);
    }
    let steps = vec![continuations(vec![(played, history(&[1, 2]))])];
    state.set_position(&history(&[1, 2]), &steps).expect("advance graph");
    let graph = state.graph.as_ref().expect("graph");
    assert_eq!(graph.root_key(), NodeKey::board(2));
    assert!(graph.repository().get(NodeKey::board(1)).is_some());
    assert!(state.begin_search(&Vec::new(), &Vec::new()).expect("search").root_is_black);
}

#[test]
fn searches_are_restricted_to_legal_requests() {
    let mut state = state();
    assert_eq!(
        state.begin_search(&Vec::new(), &Vec::new()).err().expect("refused").message(),
        "position is not configured"
    );
    state.set_position(&history(&[1]), &Vec::new()).expect("position");
    let legal = vec![mv("a0", "a1"), mv("b0", "b1")];
    let requested = vec![Some(mv("b0", "b1")), None, Some(mv("c0", "c1"))];
    let search = state.begin_search(&requested, &legal).expect("search");
    assert_eq!(search.root_move_filter, vec![mv("b0", "b1")]);
    assert_eq!(
        state.begin_search(&vec![Some(mv("c0", "c1"))], &legal).err().expect("refused").message(),
        "No legal searchmoves."
    );
}

#[test]
fn reports_show_candidates_best_first() {
    let mut repo = repository();
    let root = NodeKey::board(19);
    let first = mv("a0", "a1");
    let second = mv("b0", "b1");
    publish(&mut repo, root, &[(first, 0.9), (second, 0.1)]);
    set_value(&mut repo, root, one(0.0, 0.0));
    visited_children(&mut repo, root, &[(NodeKey::board(191), 0.1, 3), (NodeKey::board(192), 0.2, 5)]);
    let snapshot =
        WatchdogSnapshot { root_key: root, root_is_black: false, root_move_filter: Vec::new(), multi_pv: 2 };
    let stats = Stats { completed_playouts: 8, average_depth: 2, max_depth: 3, network_evaluations: 4 };
    let infos = snapshot.thinking_infos(&repo, &stats, 500);
    assert_eq!(infos.len(), 2);
    assert_eq!(infos[0].pv, vec![second]);
    assert_eq!(infos[0].score, Some(200));
    assert_eq!(infos[0].multipv, Some(1));
    assert_eq!((infos[0].depth, infos[0].seldepth, infos[0].nodes), (2, 3, 8));
    assert_eq!((infos[0].nps, infos[0].eps), (16, 8));
    let wdl = infos[0].wdl.expect("wdl");
    assert_eq!((wdl.w, wdl.d, wdl.l), (600, 0, 400));
    assert_eq!(infos[1].pv, vec![first]);
    let progress = snapshot.progress(&repo, &stats);
    assert_eq!((progress.best_move, progress.depth, progress.seldepth), (Some(second), 2, 3));
}

#[test]
fn a_report_without_a_root_shows_the_counters() {
    let snapshot = WatchdogSnapshot {
        root_key: NodeKey::board(1),
        root_is_black: false,
        root_move_filter: Vec::new(),
        multi_pv: 1,
    };
    let stats = Stats { completed_playouts: 8, average_depth: 2, max_depth: 3, network_evaluations: 4 };
    let infos = snapshot.thinking_infos(&repository(), &stats, 0);
    assert_eq!(infos.len(), 1);
    assert_eq!((infos[0].nodes, infos[0].nps, infos[0].score), (8, 0, None));
    assert!(infos[0].pv.is_empty());
}

#[test]
fn a_report_on_a_finished_root_shows_the_mate() {
    let mut repo = repository();
    let root = NodeKey::board(100);
    mark_terminal(&mut repo, root, 1.0, 0.0, 0.0);
    repo.recompute_graph_node(root);
    let snapshot =
        WatchdogSnapshot { root_key: root, root_is_black: true, root_move_filter: Vec::new(), multi_pv: 1 };
    let stats = Stats { completed_playouts: 1, average_depth: 1, max_depth: 1, network_evaluations: 0 };
    let infos = snapshot.thinking_infos(&repo, &stats, 10);
    assert_eq!(infos.len(), 1);
    assert_eq!((infos[0].mate, infos[0].score), (Some(-1), None));
    let wdl = infos[0].wdl.expect("wdl");
    assert_eq!((wdl.w, wdl.d, wdl.l), (0, 0, 1000));
}

#[test]
fn keys_order_by_kind_then_by_hash() {
    assert!(NodeKey::root(1) < NodeKey::root(2));
    assert!(NodeKey::root(u64::MAX) < NodeKey::continuation(0, 0));
    assert!(NodeKey::continuation(1, 9) < NodeKey::continuation(2, 0));
    assert!(NodeKey::continuation(2, 0) < NodeKey::continuation(2, 1));
    let mut keys = vec![NodeKey::continuation(1, 1), NodeKey::root(7), NodeKey::root(3)];
    keys.sort();
    assert_eq!(keys, vec![NodeKey::root(3), NodeKey::root(7), NodeKey::continuation(1, 1)]);
}
