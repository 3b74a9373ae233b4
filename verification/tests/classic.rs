use xiangqi_search::classic::backend::{Backend, UniformBackend};
use xiangqi_search::classic::backup::{
    cancel_shared_collisions, collect_collisions, do_backup_update_single_node, WorkerSearchState,
};
use xiangqi_search::classic::descent::SelectionContext;
use xiangqi_search::classic::extend::{classify_leaf, extend_node, Extension, LeafPosition};
use xiangqi_search::classic::gather::{
    acquire_searcher_permit, begin_backend_wait, completes_out_of_order, end_backend_wait,
    exceeds_nps_limit, fetch_single_node_result, finish_entry, prepare_entry,
    release_searcher_permit, rescale_request, resolve_task_workers, should_yield_for_backend,
    target_minibatch_size, GatherLimits, GatherState, Permit, Reply,
};
use xiangqi_search::classic::node::{Edge, EdgeAndNode, Node, Terminal};
use xiangqi_search::classic::params::{ContemptMode, ScoreType, SearchParams, Weights};
use xiangqi_search::classic::output::{snapshot_output, ShownValue};
use xiangqi_search::classic::picking::{
    draw_score, ensure_node_twofold_correct_for_depth, scan_edges, Candidates,
};
use xiangqi_search::classic::prefetch::{prefetch_budget, prefetch_into_cache};
use xiangqi_search::classic::ranking::{best_child_edge, best_child_edges};
use xiangqi_search::classic::score::{
    displayed_diff, rescale_sign, rescales_display, score_from_wdl, ScoreCurves,
};
use xiangqi_search::classic::search::{
    best_move, mate_distance, principal_variation, resolve_contempt_mode, snapshot_infos, wdl_from_wl_d,
    ReportCounters,
};
use xiangqi_search::classic::session::{
    contempt_warning, search_thread_count, start_error, watchdog_wait_ms, ClassicSearch, InfoOutput,
    SearchClock, StartPosition,
};
use xiangqi_search::classic::settle::{
    count_picked, do_backup_update, settle_round, work_done,
};
use xiangqi_search::stoppers::stopper::SearchStopper;
use xiangqi_search::stoppers::timemgr::{IterationStats, StoppersHints};
use xiangqi_search::classic::tasks::{
    split_processing_tasks, Evaluation, NodeToProcess, PickTask, PickTaskKind, PickTaskQueue,
    TaskPoll,
};
use xiangqi_search::classic::tree::{NodeArena, NodeTree};
use xiangqi_search::classic::uct::{compute_cpuct, edge_score, get_fpu};
use xiangqi_search::classic::walk::{hand_off_gathering_task, pick_nodes_to_extend_task};
use xiangqi_search::go_params::GoParams;
use xiangqi_search::position::{orient_move, GameResult, Move, Position};
use xiangqi_search::scalar::Scalar;
use xiangqi_search::stoppers::legacy::{LegacyTimeManager, LegacyWeights};

#[derive(Clone, Copy, Debug, PartialEq)]
struct F32(f32);

impl Scalar for F32 {
    fn zero() -> Self {
        F32(0.0)
    }
    fn spec_zero() -> Self {
        Self::zero()
    }
    fn one() -> Self {
        F32(1.0)
    }
    fn spec_one() -> Self {
        Self::one()
    }
    fn count(n: u32) -> Self {
        F32(n as f32)
    }
    fn spec_count(n: u32) -> Self {
        Self::count(n)
    }
    fn integer(n: i64) -> Self {
        F32(n as f32)
    }
    fn spec_integer(n: i64) -> Self {
        Self::integer(n)
    }
    fn from_bits(bits: u32) -> Self {
        F32(f32::from_bits(bits))
    }
    fn spec_from_bits(bits: u32) -> Self {
        Self::from_bits(bits)
    }
    fn plus(self, other: Self) -> Self {
        F32(self.0 + other.0)
    }
    fn spec_plus(self, other: Self) -> Self {
        self.plus(other)
    }
    fn minus(self, other: Self) -> Self {
        F32(self.0 - other.0)
    }
    fn spec_minus(self, other: Self) -> Self {
        self.minus(other)
    }
    fn times(self, other: Self) -> Self {
        F32(self.0 * other.0)
    }
    fn spec_times(self, other: Self) -> Self {
        self.times(other)
    }
    fn over(self, other: Self) -> Self {
        F32(self.0 / other.0)
    }
    fn spec_over(self, other: Self) -> Self {
        self.over(other)
    }
    fn negated(self) -> Self {
        F32(-self.0)
    }
    fn spec_negated(self) -> Self {
        self.negated()
    }
    fn root(self) -> Self {
        F32(self.0.sqrt())
    }
    fn spec_root(self) -> Self {
        self.root()
    }
    fn log(self) -> Self {
        F32(self.0.ln())
    }
    fn spec_log(self) -> Self {
        self.log()
    }
    fn above(self, other: Self) -> bool {
        self.0 > other.0
    }
    fn spec_above(self, other: Self) -> bool {
        self.above(other)
    }
    fn same(self, other: Self) -> bool {
        self.0 == other.0
    }
    fn spec_same(self, other: Self) -> bool {
        self.same(other)
    }
    fn total_key(self) -> i64 {
        let bits = self.0.to_bits() as i32;
        (bits ^ (((bits >> 31) as u32) >> 1) as i32) as i64
    }
    fn spec_total_key(self) -> i64 {
        self.total_key()
    }
    fn floor_count(self) -> u32 {
        self.0.floor() as u32
    }
    fn spec_floor_count(self) -> u32 {
        self.floor_count()
    }
    fn rounded(self) -> i32 {
        self.0.round() as i32
    }
    fn spec_rounded(self) -> i32 {
        self.rounded()
    }
    fn truncated(self) -> i64 {
        self.0 as i64
    }
    fn spec_truncated(self) -> i64 {
        self.truncated()
    }
}

fn square(name: &str) -> u8 {
    let bytes = name.as_bytes();
    (bytes[1] - b'0') * 9 + (bytes[0] - b'a')
}

fn mv(from: &str, to: &str) -> Move {
    Move { from: square(from), to: square(to) }
}

fn weights() -> Weights<F32> {
    Weights {
        cpuct: F32(1.0),
        cpuct_at_root: F32(1.745),
        cpuct_base: F32(38_739.0),
        cpuct_factor: F32(3.894),
        fpu_value: F32(0.220),
        fpu_value_at_root: F32(0.220),
        draw_score: F32(0.0),
        temperature: F32(0.0),
        wdl_rescale_ratio: F32(1.0),
        wdl_rescale_diff: F32(0.0),
        wdl_max_s: F32(1.4),
        wdl_eval_objectivity: F32(1.0),
        nps_limit: F32(0.0),
    }
}

fn params() -> SearchParams<F32> {
    SearchParams::with_weights(weights())
}

fn position(board: u64, black_to_move: bool) -> Position {
    Position {
        board,
        board_hash: board,
        black_to_move,
        repetitions: 0,
        cycle_length: 0,
        rule60_ply: 0,
        game_ply: 0,
    }
}

fn start_tree() -> (NodeTree<F32>, usize) {
    let mut tree = NodeTree::new();
    tree.reset_to_position(position(1, false), &Vec::new());
    let root = tree.current_head();
    (tree, root)
}

fn prior(p: f32) -> u32 {
    p.to_bits()
}

fn visited(node: &mut Node<F32>, wl: f32, d: f32, m: f32) {
    assert!(node.try_start_score_update());
    node.finalize_score_update(F32(wl), F32(d), F32(m), 1);
}

fn board_moves() -> Vec<Move> {
    vec![mv("a0", "a1"), mv("b0", "b1"), mv("c0", "c1")]
}

fn leaf(depth: usize) -> LeafPosition {
    LeafPosition {
        legal_moves: board_moves(),
        positions: (0..=depth as u64).map(|ply| position(100 + ply, ply % 2 == 1)).collect(),
        rule_judge: GameResult::Undecided,
        has_mating_material: true,
    }
}

fn reply(tree: &NodeTree<F32>, item: &NodeToProcess<F32>) -> Option<Reply<F32>> {
    let edges = tree.node(item.node_idx).num_edges();
    Some(Reply {
        eval: Evaluation { wl: F32(0.0), d: F32(0.0), m: F32(0.0) },
        policies: vec![prior(1.0 / edges as f32); edges],
    })
}

struct Iteration {
    minibatch: Vec<NodeToProcess<F32>>,
    gather: GatherState,
    queried: usize,
}

fn process(
    tree: &mut NodeTree<F32>,
    params: &SearchParams<F32>,
    item: &mut NodeToProcess<F32>,
    cached: bool,
) -> usize {
    if item.is_collision {
        return 0;
    }
    let asked = prepare_entry(tree, item, &leaf(item.depth as usize), params.two_fold_draws);
    let query = if asked { Some((item.node_idx as u64, cached)) } else { None };
    let answer = if cached { reply(tree, item) } else { None };
    finish_entry(tree, params, item, query, &answer).expect("result at hand");
    if asked && !cached {
        1
    } else {
        0
    }
}

fn gather(
    tree: &mut NodeTree<F32>,
    state: &mut WorkerSearchState,
    params: &SearchParams<F32>,
    task_workers: i32,
    cached: &dyn Fn(usize) -> bool,
) -> Iteration {
    let root = tree.current_head();
    let filter: Vec<Move> = Vec::new();
    let limits = GatherLimits {
        target_minibatch_size: target_minibatch_size(params.minibatch_size, 8),
        max_out_of_order: 16,
        idling_minimum_work: params.idling_minimum_work,
        yield_for_backend: false,
    };
    let mut gather = GatherState::begin(params, tree.node(root).n(), 1_000_000, 4);
    let mut minibatch = Vec::new();
    let mut queried = 0;
    while let Some(budget) = gather.next_round(&limits, queried) {
        if budget == 0 {
            break;
        }
        let new_start = minibatch.len();
        let context = SelectionContext {
            params,
            root_move_filter: &filter,
            remaining_playouts: 1_000_000,
            current_best_edge: state.current_best_edge,
            root_is_black: false,
            task_workers,
        };
        let mut queue = PickTaskQueue::new();
        queue.reset();
        let none = Vec::new();
        pick_nodes_to_extend_task(&context, tree, &mut queue, root, 0, budget, &none, &mut minibatch, true)
            .expect("walk");
        while let Some(mut claimed) = queue.take() {
            let task = &mut claimed.task;
            let start = task.start.expect("start");
            pick_nodes_to_extend_task(
                &context,
                tree,
                &mut queue,
                start,
                task.base_depth,
                task.collision_limit,
                &task.moves_to_base,
                &mut task.results,
                false,
            )
            .expect("task walk");
            queue.complete(claimed);
        }
        queue.drain_results_into(&mut minibatch);
        let picked = count_picked(&mut gather, &minibatch, new_start);
        queue.reset();
        let (main_start, needs_wait) =
            split_processing_tasks(&mut queue, params, task_workers, &minibatch, new_start, picked);
        while let Some(claimed) = queue.take() {
            assert!(needs_wait);
            for index in claimed.task.start_idx..claimed.task.end_idx {
                let hit = cached(minibatch[index].node_idx);
                queried += process(tree, params, &mut minibatch[index], hit);
            }
            queue.complete(claimed);
        }
        for index in main_start..minibatch.len() {
            let hit = cached(minibatch[index].node_idx);
            queried += process(tree, params, &mut minibatch[index], hit);
        }
        if settle_round(tree, state, params, &mut minibatch, new_start, &mut gather, false, &filter) {
            break;
        }
    }
    Iteration { minibatch, gather, queried }
}

fn iterate(
    tree: &mut NodeTree<F32>,
    state: &mut WorkerSearchState,
    params: &SearchParams<F32>,
    task_workers: i32,
    cached: &dyn Fn(usize) -> bool,
) -> Iteration {
    let mut iteration = gather(tree, state, params, task_workers, cached);
    collect_collisions(state, &iteration.minibatch);
    for item in &mut iteration.minibatch {
        let answer = if item.nn_queried { reply(tree, item) } else { None };
        fetch_single_node_result(tree, item, &answer).expect("result");
    }
    do_backup_update(
        tree,
        state,
        params,
        &iteration.minibatch,
        iteration.gather.number_out_of_order,
        false,
        &Vec::new(),
    );
    iteration
}

fn nothing_under_way(tree: &NodeTree<F32>) -> bool {
    tree.arena.nodes.iter().all(|node| node.n_in_flight() == 0)
}

#[test]
fn edge_prior_roundtrip() {
    for p in [0.0, 0.001, 0.25, 0.5, 0.999, 1.0] {
        let mut edge = Edge::new(Move::null());
        edge.set_p(prior(p));
        let decoded = f32::from_bits(edge.get_p());
        assert!((decoded - p).abs() < 0.02, "p={p} decoded={decoded}");
    }
}

#[test]
fn edge_and_node_matches_px0_q_u_proxy() {
    let mut arena = NodeArena::<F32>::new();
    let root = arena.allocate(Node::new(None, 0));
    arena.get_mut(root).expect("root").create_single_child_node(mv("a0", "a1"));
    arena.get_mut(root).expect("root").edge_mut(0).set_p(prior(0.5));
    let edge = arena.get(root).expect("root").edge(0);
    let unvisited = EdgeAndNode::new(edge, None::<&Node<F32>>);
    assert!((unvisited.q(F32(0.25), F32(0.0)).0 - 0.25).abs() < f32::EPSILON);
    assert!((unvisited.u(F32(4.0)).0 - 2.0).abs() < 0.02);

    let child = arena.spawn_child(root, 0);
    visited(arena.get_mut(child).expect("child"), 0.75, 0.0, 0.0);
    let edge = arena.get(root).expect("root").edge(0);
    let proxy = EdgeAndNode::new(edge, arena.get(child));
    assert!((proxy.q(F32(0.25), F32(0.0)).0 - 0.75).abs() < f32::EPSILON);
    assert_eq!(proxy.n_started(), 1);
    assert!((proxy.u(F32(4.0)).0 - 1.0).abs() < 0.02);
}

#[test]
fn finalize_score_update_matches_running_average() {
    let mut node = Node::<F32>::new(None, 0);
    visited(&mut node, 0.5, 0.1, 2.0);
    assert_eq!(node.n(), 1);
    assert!((node.wl().0 - 0.5).abs() < 1e-6);
    visited(&mut node, 0.0, 0.0, 0.0);
    assert_eq!(node.n(), 2);
    assert!((node.wl().0 - 0.25).abs() < 1e-6);
    assert_eq!(node.n_in_flight(), 0);
}

#[test]
fn first_score_update_has_one_winner() {
    let mut node = Node::<F32>::new(None, 0);
    assert_eq!((0..8).filter(|_| node.try_start_score_update()).count(), 1);
    assert_eq!(node.n_in_flight(), 1);
    node.cancel_score_update(1);
    assert_eq!(node.n_in_flight(), 0);
}

#[test]
fn a_child_slot_is_filled_once() {
    let (mut tree, root) = start_tree();
    tree.node_mut(root).create_single_child_node(mv("a0", "a1"));
    let child = tree.arena_mut().spawn_child(root, 0);
    assert_eq!(tree.arena_mut().spawn_child(root, 0), child);
    assert_eq!(tree.node(root).child(0), Some(child));
}

#[test]
fn revert_terminal_visits_matches_px0_zero_reset() {
    let mut node = Node::<F32>::new(None, 0);
    visited(&mut node, 0.5, 0.25, 4.0);
    node.revert_terminal_visits(F32(0.5), F32(0.25), F32(4.0), 1);
    assert_eq!(node.n(), 0);
    assert!((node.wl().0 - 0.0).abs() < f32::EPSILON);
    assert!((node.d().0 - 1.0).abs() < f32::EPSILON);
    assert!((node.m().0 - 0.0).abs() < f32::EPSILON);
}

#[test]
fn revert_terminal_visits_restores_prior_average() {
    let mut node = Node::<F32>::new(None, 0);
    visited(&mut node, 0.2, 0.4, 3.0);
    visited(&mut node, 1.0, 0.0, 1.0);
    node.revert_terminal_visits(F32(1.0), F32(0.0), F32(1.0), 1);
    assert_eq!(node.n(), 1);
    assert!((node.wl().0 - 0.2).abs() < 1e-6);
    assert!((node.d().0 - 0.4).abs() < 1e-6);
    assert!((node.m().0 - 3.0).abs() < 1e-6);
}

#[test]
fn sort_edges_orders_policy_before_children_exist() {
    let mut node = Node::<F32>::new(None, 0);
    node.create_edges(&vec![mv("a0", "a1"), mv("a0", "a2")]);
    node.edge_mut(0).set_p(prior(0.1));
    node.edge_mut(1).set_p(prior(0.9));
    node.sort_edges();
    assert!(f32::from_bits(node.edge(0).get_p()) > f32::from_bits(node.edge(1).get_p()));
    assert_eq!(node.edge(0).mv, mv("a0", "a2"));
}

#[test]
fn make_solid_fills_all_child_slots_after_safety_check() {
    let (mut tree, root) = start_tree();
    tree.node_mut(root).create_edges(&vec![mv("a0", "a1"), mv("a0", "a2")]);
    assert!(tree.make_solid(root));
    assert!(tree.node(root).has_solid_children());
    for edge_idx in 0..tree.node(root).num_edges() {
        let child = tree.node(root).child(edge_idx).expect("solid child");
        assert_eq!(tree.node(child).parent(), Some(root));
        assert_eq!(tree.node(child).edge_index(), edge_idx as u16);
    }
    assert!(!tree.make_solid(root));
}

#[test]
fn make_solid_rejects_immediate_leaf_in_flight() {
    let (mut tree, root) = start_tree();
    tree.node_mut(root).create_edges(&vec![mv("a0", "a1")]);
    let child = tree.arena_mut().spawn_child(root, 0);
    assert!(tree.node_mut(root).try_start_score_update());
    assert!(tree.node_mut(child).try_start_score_update());
    assert!(!tree.make_solid(root));
    assert!(!tree.node(root).has_solid_children());
}

#[test]
fn reset_to_new_line_clears_unmatched_edges() {
    let (mut tree, root) = start_tree();
    tree.node_mut(root).create_edges(&vec![mv("a0", "a1")]);
    tree.reset_to_position(position(1, false), &vec![(mv("h2", "h4"), position(2, true))]);
    assert_eq!(tree.history().len(), 2);
    assert_eq!(tree.node(tree.current_head()).num_edges(), 0);
}

#[test]
fn a_played_move_keeps_its_subtree() {
    let (mut tree, root) = start_tree();
    tree.node_mut(root).create_edges(&board_moves());
    visited(tree.node_mut(root), 0.0, 0.0, 0.0);
    let child = tree.arena_mut().spawn_child(root, 1);
    visited(tree.node_mut(child), 0.5, 0.0, 0.0);
    let kept = tree.reset_to_position(position(1, false), &vec![(mv("b0", "b1"), position(2, true))]);
    assert!(kept);
    assert_eq!(tree.node(tree.current_head()).n(), 1);
    assert!(!tree.reset_to_position(position(9, false), &Vec::new()));
    assert_eq!(tree.node(tree.current_head()).n(), 0);
}

#[test]
fn a_game_is_followed_move_by_move() {
    let (mut tree, root) = start_tree();
    tree.node_mut(root).create_edges(&board_moves());
    let child = tree.arena_mut().spawn_child(root, 1);
    let sibling = tree.arena_mut().spawn_child(root, 0);
    tree.node_mut(child).create_edges(&board_moves());
    let grandchild = tree.arena_mut().spawn_child(child, 2);
    visited(tree.node_mut(grandchild), 0.25, 0.0, 3.0);
    let game = vec![(mv("b0", "b1"), position(2, true)), (mv("c0", "c1"), position(3, false))];
    assert!(tree.reset_to_position(position(1, false), &game));
    assert_eq!(tree.current_head(), grandchild);
    assert_eq!((tree.node(grandchild).n(), tree.node(grandchild).wl()), (1, F32(0.25)));
    assert_eq!(tree.node(root).child(1), Some(child));
    assert_eq!((tree.node(root).child(0), tree.node(root).child(2)), (None, None));
    assert_ne!(sibling, child);
    let other = vec![(mv("b0", "b1"), position(2, true)), (mv("a0", "a1"), position(4, false))];
    assert!(!tree.reset_to_position(position(1, false), &other));
    assert_eq!(tree.node(tree.current_head()).parent(), Some(child));
    assert_eq!(tree.node(tree.current_head()).n(), 0);
    assert_eq!(tree.node(child).child(2), None);
}

#[test]
fn wins_come_first_and_losses_last() {
    let moves = vec![mv("a0", "a1"), mv("b0", "b1"), mv("c0", "c1"), mv("d0", "d1"), mv("e0", "e1")];
    let kinds = [
        Some((GameResult::BlackWon, 2.0)),
        Some((GameResult::WhiteWon, 6.0)),
        None,
        Some((GameResult::BlackWon, 8.0)),
        Some((GameResult::WhiteWon, 4.0)),
    ];
    let (mut tree, root) = start_tree();
    tree.node_mut(root).create_edges(&moves);
    visited(tree.node_mut(root), 0.0, 0.0, 0.0);
    for (edge, kind) in kinds.iter().enumerate() {
        let child = tree.arena_mut().spawn_child(root, edge);
        visited(tree.node_mut(child), 0.0, 0.0, 0.0);
        if let Some((result, length)) = *kind {
            tree.make_terminal(child, result, F32(length), Terminal::EndOfGame);
        }
    }
    let none: Vec<Move> = Vec::new();
    assert_eq!(best_child_edges(&tree, root, &params(), false, 5, false, &none), vec![4, 1, 2, 3, 0]);
    let lost = tree.node(root).child(0).expect("child");
    tree.make_terminal(lost, GameResult::BlackWon, F32(1.0), Terminal::Tablebase);
    let won = tree.node(root).child(1).expect("child");
    tree.make_terminal(won, GameResult::WhiteWon, F32(1.0), Terminal::Tablebase);
    assert_eq!(best_child_edges(&tree, root, &params(), false, 5, false, &none), vec![4, 1, 2, 0, 3]);
}

#[test]
fn best_child_uses_prior_until_a_child_has_more_visits() {
    let (mut tree, root) = start_tree();
    let none: Vec<Move> = Vec::new();
    tree.node_mut(root).create_edges(&board_moves()[..2].to_vec());
    tree.node_mut(root).edge_mut(0).set_p(prior(0.2));
    tree.node_mut(root).edge_mut(1).set_p(prior(0.8));
    visited(tree.node_mut(root), 0.0, 0.0, 0.0);
    assert_eq!(best_child_edge(&tree, root, &params(), false, false, &none), Some(1));

    let child = tree.arena_mut().spawn_child(root, 0);
    visited(tree.node_mut(child), 0.0, 0.0, 0.0);
    assert_eq!(best_child_edge(&tree, root, &params(), false, false, &none), Some(0));
    assert_eq!(best_child_edges(&tree, root, &params(), false, 5, false, &none), vec![0, 1]);
    assert_eq!(best_child_edges(&tree, root, &params(), false, 1, false, &none), vec![0]);
}

#[test]
fn root_filter_applies_before_the_root_has_visits() {
    let (tree, _) = start_tree();
    let allowed = mv("a0", "a1");
    assert_eq!(best_move(&tree, &params(), false, &vec![allowed], Some(mv("b0", "b1"))).0, allowed);
    assert_eq!(best_move(&tree, &params(), false, &Vec::new(), Some(mv("b0", "b1"))).0, mv("b0", "b1"));
    assert!(best_move(&tree, &params(), false, &Vec::new(), None).0.is_null());
}

#[test]
fn move_orientation_keeps_px0_null_ponder_null() {
    assert!(orient_move(Move::null(), true).is_null());
    assert_eq!(orient_move(mv("a0", "b1"), true), mv("a9", "b8"));
    assert_eq!(orient_move(orient_move(mv("a0", "b1"), true), true), mv("a0", "b1"));
}

#[test]
fn iteration_stats_include_reused_root_visits() {
    let mut clock = SearchClock { move_start_ms: 100, nps_start_ms: None, initial_visits: 17 };
    let mut worker = WorkerSearchState::new(false);
    worker.total_playouts = 5;
    let stats = clock.populate_iteration_stats(&worker, 150);
    assert_eq!(stats.total_nodes, 22);
    assert_eq!(stats.nodes_since_movestart, 5);
    assert!(clock.nps_start_ms.is_some());
    assert_eq!(stats.time_since_movestart, 50);
}

#[test]
fn wdl_integerization_matches_px0_send_uci_info() {
    let wdl = wdl_from_wl_d(F32(0.1), F32(0.2));
    assert_eq!((wdl.w, wdl.d, wdl.l), (450, 200, 350));
}

#[test]
fn play_contempt_is_settled_at_the_start() {
    assert_eq!(resolve_contempt_mode(ContemptMode::Play, true, false, false), ContemptMode::Disable);
    assert_eq!(resolve_contempt_mode(ContemptMode::Play, false, false, false), ContemptMode::White);
    assert_eq!(resolve_contempt_mode(ContemptMode::Play, false, true, false), ContemptMode::Black);
    assert_eq!(resolve_contempt_mode(ContemptMode::Play, false, false, true), ContemptMode::Black);
    assert_eq!(resolve_contempt_mode(ContemptMode::White, true, true, true), ContemptMode::White);
}

fn legacy_weights() -> LegacyWeights<F32> {
    LegacyWeights {
        first_move_bonus: F32(1.8),
        book_ply_bonus: F32(0.25),
        smart_pruning_tolerance_ms: F32(200.0),
    }
}

fn search(params: SearchParams<F32>) -> ClassicSearch<F32> {
    let mut search = ClassicSearch::new(params);
    search.set_position(position(1, false), &Vec::new());
    search
}

fn start() -> StartPosition<F32> {
    StartPosition {
        black_to_move: false,
        game_ply: 0,
        legal_moves: board_moves(),
        requested: Vec::new(),
        estimated_moves: F32(51.5),
        now_ms: 0,
    }
}

#[test]
fn infinite_play_contempt_emits_px0_warning_before_workers_start() {
    let mut contempt = params();
    contempt.weights.wdl_rescale_diff = F32(0.1);
    let mut search = search(contempt);
    let go = GoParams { infinite: true, ..GoParams::default() };
    assert!(search.start_search(&go, &start(), &legacy_weights()).expect("infinite search"));
    assert_eq!(
        contempt_warning(),
        "WARNING: Contempt mode set to 'disable' as 'play' not supported for infinite search."
    );
    assert_eq!(search.contempt_mode, ContemptMode::Disable);
    search.abort_search();
    assert!(!search.claim_bestmove());
}

#[test]
fn ponder_suppresses_bestmove_like_px0_search_constructor() {
    let mut search = search(params());
    let go = GoParams { nodes: Some(1), ponder: true, ..GoParams::default() };
    assert!(!search.start_search(&go, &start(), &legacy_weights()).expect("internal ponder search"));
    assert!(!search.ok_to_respond_bestmove);
    search.worker.total_playouts = 1;
    search.stop_search();
    assert!(search.claim_bestmove());
    assert!(!search.claim_bestmove());
}

#[test]
fn searches_are_refused_with_a_reason() {
    let go = GoParams::default;
    let cases = vec![
        (GoParams { depth: Some(1), ..go() }, Vec::new(), "go depth/go mate stopper"),
        (GoParams { nodes: Some(0), ..go() }, Vec::new(), "go nodes must be positive"),
        (GoParams { movetime: Some(-1), ..go() }, Vec::new(), "go movetime must be non-negative"),
        (GoParams { btime: Some(10), ..go() }, Vec::new(), "time-based search stopper"),
        (
            GoParams { infinite: true, ..go() },
            vec![Some(mv("i0", "i1")), None],
            "No legal searchmoves.",
        ),
    ];
    for (go, requested, reason) in cases {
        let mut search = search(params());
        let start = StartPosition { requested, ..start() };
        let refusal = search.start_search(&go, &start, &legacy_weights()).err().expect("refused");
        assert_eq!(refusal.message(), reason);
    }
}

#[test]
fn a_search_stops_at_its_limit_and_reports_on_the_way() {
    let mut search = search(params());
    let go = GoParams { nodes: Some(3), ..GoParams::default() };
    let start = StartPosition { requested: vec![Some(mv("b0", "b1"))], ..start() };
    search.start_search(&go, &start, &legacy_weights()).expect("search");
    assert_eq!(search.root_move_filter, vec![mv("b0", "b1")]);
    let mut hints = StoppersHints::default();
    assert!(!search.maybe_trigger_stop(1, &mut hints));
    search.worker.total_playouts = 2;
    assert!(!search.maybe_trigger_stop(2, &mut hints));
    assert_eq!(search.maybe_output_info(1, 1, 5), InfoOutput::Quiet);
    search.worker.current_best_edge = Some(0);
    assert_eq!(search.maybe_output_info(1, 1, 5), InfoOutput::Report);
    assert_eq!(search.maybe_output_info(1, 1, 5), InfoOutput::Quiet);
    search.worker.total_playouts = 3;
    assert!(search.maybe_trigger_stop(3, &mut hints));
    assert!(search.worker.stop);
    assert!(search.claim_bestmove());
    assert_eq!(watchdog_wait_ms(&hints), 100);
    assert_eq!(search_thread_count(0, 2, false), 3);
    assert_eq!(search_thread_count(5, 2, true), 5);
}

#[test]
fn a_search_can_be_asked_again_and_again() {
    let mut search = search(params());
    let go = GoParams { nodes: Some(10), movetime: Some(1_000), ..GoParams::default() };
    assert!(start_error(&go, &start()).is_none());
    search.start_search(&go, &start(), &legacy_weights()).expect("search");
    let mut hints = StoppersHints::default();
    search.worker.total_playouts = 4;
    for now in 1..5 {
        assert!(!search.maybe_trigger_stop(now, &mut hints));
        assert_eq!(hints.estimated_remaining_playouts(), 6);
    }
    search.worker.total_playouts = 10;
    assert!(search.maybe_trigger_stop(5, &mut hints));
    assert!(search.maybe_trigger_stop(6, &mut hints));
    assert_eq!(search.stopper.expect("chain").stoppers.len(), 2);
}

#[test]
fn time_is_spared_for_the_game_that_planned_it() {
    let go = GoParams { wtime: Some(10_000), ..GoParams::default() };
    let mut search = search(params());
    search.start_search(&go, &start(), &legacy_weights()).expect("search");
    assert!(search.planned.is_some());
    let spared = search.time_manager.time_spared_ms();
    search.on_search_done(1);
    assert!(search.time_manager.time_spared_ms() > spared);
    search.start_search(&go, &start(), &legacy_weights()).expect("search");
    search.set_position(position(9, false), &Vec::new());
    assert!(search.planned.is_none());
    search.on_search_done(2);
    assert_eq!(search.time_manager.time_spared_ms(), 0);
}

#[test]
fn waiting_takes_back_collisions_and_nothing_else() {
    let mut search = search(params());
    let root = search.tree.current_head();
    search.tree.node_mut(root).create_single_child_node(mv("a0", "a1"));
    let child = search.tree.arena_mut().spawn_child(root, 0);
    search.tree.node_mut(root).increment_n_in_flight(5);
    search.tree.node_mut(child).increment_n_in_flight(1);
    search.worker.shared_collisions.push((child, 3));
    search.wait_search();
    assert_eq!(search.tree.node(root).n_in_flight(), 2);
    assert_eq!(search.tree.node(child).n_in_flight(), 1);
    assert!(search.worker.shared_collisions.is_empty());
}

fn curves() -> ScoreCurves<F32> {
    ScoreCurves {
        centipawn_with_drawscore: F32(11.0),
        centipawn: F32(12.0),
        centipawn_2019: F32(13.0),
        centipawn_2018: F32(14.0),
        mu_centipawn: F32(15.0),
    }
}

#[test]
fn score_type_q_matches_px0_scaled_q() {
    let score = |kind, mu| score_from_wdl(kind, F32(0.1), F32(0.2), F32(0.1234), true, F32(mu), &curves());
    assert_eq!(score(ScoreType::Q, 0.0), 1234);
    assert_eq!(score(ScoreType::WinLoss, 0.0), 1000);
    assert_eq!(score(ScoreType::WinPercentage, 0.0), 5500);
    assert_eq!(score(ScoreType::Centipawn, 0.0), 12);
    assert_eq!(score(ScoreType::CentipawnWithDrawscore, 0.0), 11);
    assert_eq!(score(ScoreType::Centipawn2019, 0.0), 13);
    assert_eq!(score(ScoreType::Centipawn2018, 0.0), 14);
    assert_eq!(score(ScoreType::WdlMu, 0.0), 15);
    assert_eq!(score(ScoreType::WdlMu, 0.5), 50);
}

#[test]
fn objectivity_scales_the_displayed_difference() {
    assert_eq!(displayed_diff(ContemptMode::White, F32(0.2), F32(1.0)), F32(0.2));
    assert_eq!(displayed_diff(ContemptMode::White, F32(0.2), F32(0.0)), F32(0.0));
    assert_eq!(displayed_diff(ContemptMode::Disable, F32(0.2), F32(1.0)), F32(0.0));
    assert_eq!(rescale_sign::<F32>(ContemptMode::Black, true), F32(1.0));
    assert_eq!(rescale_sign::<F32>(ContemptMode::Black, false), F32(-1.0));
    assert!(rescales_display(ScoreType::WdlMu, F32(0.0), ContemptMode::Disable));
    assert!(!rescales_display(ScoreType::Q, F32(0.2), ContemptMode::Disable));
    assert!(rescale_request(&params(), false, 1).is_none());
}

#[test]
fn score_types_keep_their_names() {
    for kind in [
        ScoreType::Centipawn,
        ScoreType::CentipawnWithDrawscore,
        ScoreType::Centipawn2019,
        ScoreType::Centipawn2018,
        ScoreType::WinPercentage,
        ScoreType::Q,
        ScoreType::WinLoss,
        ScoreType::WdlMu,
    ] {
        assert_eq!(ScoreType::parse_uci(kind.as_uci()), Some(kind));
    }
    assert_eq!(ScoreType::parse_uci("q"), None);
}

#[test]
fn get_fpu_matches_px0_draw_score_and_visited_policy() {
    let mut params = params();
    params.weights.fpu_value = F32(0.5);
    let mut arena = NodeArena::<F32>::new();
    let root = arena.allocate(Node::new(None, 0));
    let root_node = arena.get_mut(root).expect("root");
    root_node.create_single_child_node(mv("a0", "a1"));
    root_node.edge_mut(0).set_p(prior(0.25));
    visited(root_node, 0.2, 0.4, 0.0);
    let child = arena.spawn_child(root, 0);
    visited(arena.get_mut(child).expect("child"), 0.0, 0.0, 0.0);

    let actual = get_fpu(&params, &arena, root, true, F32(0.1)).0;
    let visited_policy = arena.visited_policy(root).0;
    let expected = -arena.get(root).expect("root").q(F32(-0.1)).0 - 0.5 * visited_policy.sqrt();
    assert!((actual - expected).abs() < 1e-6, "actual={actual} expected={expected}");
    assert!((actual + 0.41).abs() < 0.02, "actual={actual}");
    let score = edge_score(&arena, root, 0, &params, true, F32(0.1)).0;
    let weight = compute_cpuct(&params, 1, true).0;
    assert!((score - weight * 0.25 / 2.0).abs() < 1e-3, "score={score}");
}

#[test]
fn searcher_permit_returns_slot_after_gather_phase() {
    let mut state = WorkerSearchState::new(false);
    state.set_max_concurrent_searchers(1);
    assert_eq!(acquire_searcher_permit(&mut state, 1), Permit::Granted);
    assert_eq!(state.pending_searchers, 0);
    assert_eq!(acquire_searcher_permit(&mut state, 1), Permit::Wait);
    release_searcher_permit(&mut state, 1);
    assert_eq!(state.pending_searchers, 1);
    state.stop = true;
    state.total_playouts = 1;
    assert_eq!(acquire_searcher_permit(&mut state, 1), Permit::Refused);
}

#[test]
fn backend_idling_requires_another_search_worker() {
    let mut state = WorkerSearchState::new(false);
    assert!(!should_yield_for_backend(state.thread_count, state.backend_waiting_counter, 1));
    state.thread_count = 4;
    begin_backend_wait(&mut state);
    assert!(should_yield_for_backend(state.thread_count, state.backend_waiting_counter, 1));
    end_backend_wait(&mut state);
    assert_eq!(state.backend_waiting_counter, 0);
}

#[test]
fn gpu_backend_keeps_requested_task_worker_count() {
    assert_eq!(resolve_task_workers(1, false, 1, 8), 1);
    assert_eq!(resolve_task_workers(-1, true, 1, 8), 0);
    let (mut tree, root) = start_tree();
    let mut params = params();
    params.minibatch_size = 4;
    params.minimum_work_size_for_processing = 2;
    params.minimum_work_per_task_for_processing = 1;
    params.max_collision_visits = 4;
    params.max_collision_visits_scaling_start = 0;
    params.max_collision_visits_scaling_end = 1;
    params.out_of_order_eval = false;
    let mut state = WorkerSearchState::new(false);
    while state.total_playouts < 16 {
        iterate(&mut tree, &mut state, &params, 1, &|_| false);
    }
    assert_eq!(tree.node(root).n_in_flight(), 0);
    assert_eq!(tree.node(root).n() as u64, state.total_playouts);
}

#[test]
fn a_search_leaves_no_visit_under_way() {
    let (mut tree, root) = start_tree();
    let params = params();
    let mut state = WorkerSearchState::new(false);
    while state.total_playouts < 200 {
        iterate(&mut tree, &mut state, &params, 0, &|node| node % 5 == 0);
    }
    assert!(nothing_under_way(&tree));
    assert!(state.shared_collisions.is_empty());
    assert_eq!(tree.node(root).n() as u64, state.total_playouts);
    assert!(tree.node(root).has_solid_children());
    assert!(state.network_evaluations > 0);
}

#[test]
fn out_of_order_terminal_stays_explicit() {
    let (mut tree, root) = start_tree();
    tree.make_terminal(root, GameResult::Draw, F32(0.0), Terminal::EndOfGame);
    assert!(tree.node_mut(root).try_start_score_update());
    let mut item = NodeToProcess::visit(root, 1);
    process(&mut tree, &params(), &mut item, false);
    assert!(item.ooo_completed);
    assert!(!item.nn_queried);
}

#[test]
fn out_of_order_skips_terminal_collision() {
    let (mut tree, root) = start_tree();
    tree.make_terminal(root, GameResult::Draw, F32(0.0), Terminal::EndOfGame);
    let mut item = NodeToProcess::collision(root, 1, 1, 1);
    assert!(!prepare_entry(&mut tree, &mut item, &leaf(1), true));
    assert!(!completes_out_of_order(&params(), &item, true));
    assert!(!item.ooo_completed);
    assert!(!item.nn_queried);
}

#[test]
fn out_of_order_cache_hit_avoids_nn_batch() {
    let (mut tree, root) = start_tree();
    assert!(tree.node_mut(root).try_start_score_update());
    let mut item = NodeToProcess::visit(root, 1);
    assert_eq!(process(&mut tree, &params(), &mut item, true), 0);
    assert!(item.ooo_completed);
    assert!(item.is_cache_hit);
    assert_eq!(tree.node(root).num_edges(), board_moves().len());
    assert!(tree.node(root).edges().iter().all(|edge| f32::from_bits(edge.get_p()) > 0.0));
}

#[test]
fn gather_backs_up_out_of_order_cache_hit() {
    let (mut tree, root) = start_tree();
    let mut params = params();
    params.minibatch_size = 1;
    let mut state = WorkerSearchState::new(false);
    let iteration = gather(&mut tree, &mut state, &params, 0, &|node| node == root);
    assert_eq!(iteration.gather.number_out_of_order, 1);
    assert_eq!(tree.node(root).n(), 1);
    assert!(tree.node(root).n_in_flight() > 0);
    assert!(iteration.minibatch.iter().all(|item| !item.ooo_completed));
}

#[test]
fn backup_refreshes_px0_root_best_edge_cache() {
    let (mut tree, root) = start_tree();
    let mut state = WorkerSearchState::new(false);
    while tree.node(root).n() < 2 {
        iterate(&mut tree, &mut state, &params(), 0, &|_| false);
    }
    assert!(state.current_best_edge.is_some_and(|edge| edge < tree.node(root).num_edges()));
}

#[test]
fn collision_multivisits_are_cancelled_after_backup() {
    let (mut tree, root) = start_tree();
    tree.node_mut(root).create_edges(&board_moves()[..1].to_vec());
    visited(tree.node_mut(root), 0.0, 0.0, 0.0);
    let mut params = params();
    params.minibatch_size = 4;
    params.max_collision_visits = 4;
    params.max_collision_visits_scaling_start = 0;
    params.max_collision_visits_scaling_end = 1;
    let mut state = WorkerSearchState::new(false);
    let iteration = iterate(&mut tree, &mut state, &params, 0, &|_| false);
    assert!(iteration.minibatch.iter().any(|item| item.is_collision));
    assert_eq!(tree.node(root).n_in_flight(), 0);
    assert_eq!(state.shared_collisions.len(), 0);
}

#[test]
fn collision_only_iteration_is_not_work_done() {
    let (_, root) = start_tree();
    let collisions = vec![NodeToProcess::<F32>::collision(root, 1, 1, 1)];
    assert!(!work_done(&collisions, 0));
    assert!(work_done(&collisions, 1));
    assert!(work_done(&vec![NodeToProcess::<F32>::visit(root, 1)], 0));
}

#[test]
fn shared_collisions_are_taken_back() {
    let (mut tree, root) = start_tree();
    tree.node_mut(root).create_single_child_node(mv("a0", "a1"));
    visited(tree.node_mut(root), 0.0, 0.0, 0.0);
    let child = tree.arena_mut().spawn_child(root, 0);
    tree.node_mut(root).increment_n_in_flight(3);
    let mut state = WorkerSearchState::new(false);
    collect_collisions(&mut state, &vec![NodeToProcess::<F32>::collision(child, 1, 3, 3)]);
    assert_eq!(state.shared_collisions, vec![(child, 3)]);
    cancel_shared_collisions(&mut state, &mut tree, root);
    assert_eq!(tree.node(root).n_in_flight(), 0);
    assert!(state.shared_collisions.is_empty());
}

#[test]
fn sticky_terminal_backup_sets_non_root_parent_bounds_like_px0() {
    let (mut tree, root) = start_tree();
    let only = mv("a0", "a1");
    tree.node_mut(root).create_single_child_node(only);
    let parent = tree.arena_mut().spawn_child(root, 0);
    tree.node_mut(parent).create_single_child_node(only);
    let leaf = tree.arena_mut().spawn_child(parent, 0);
    tree.make_terminal(leaf, GameResult::WhiteWon, F32(0.0), Terminal::EndOfGame);
    visited(tree.node_mut(parent), 0.0, 0.0, 0.0);
    for node in [root, parent, leaf] {
        assert!(tree.node_mut(node).try_start_score_update());
    }
    let mut state = WorkerSearchState::new(false);
    let mut item = NodeToProcess::visit(leaf, 2);
    item.eval = Evaluation { wl: F32(1.0), d: F32(0.0), m: F32(0.0) };
    do_backup_update_single_node(&mut tree, &mut state, &params(), &item, false, &Vec::new());

    assert!(!tree.node(root).is_terminal());
    assert!(tree.node(parent).is_terminal());
    assert!((tree.node(parent).wl().0 + 1.0).abs() < f32::EPSILON);
    assert_eq!(tree.node(parent).lower_bound(), GameResult::BlackWon);
    assert_eq!(tree.node(parent).upper_bound(), GameResult::BlackWon);
}

#[test]
fn prefetch_resets_workspace_history_to_root() {
    let (tree, root) = start_tree();
    let mut path = Vec::new();
    let mut plan: Vec<Vec<Move>> = Vec::new();
    let budget = prefetch_budget(1, params().max_prefetch_batch, false).expect("budget");
    assert_eq!(budget, 31);
    prefetch_into_cache(&tree, &params(), false, Some(root), budget, false, false, &mut path, &mut plan);
    assert!(path.is_empty());
    assert_eq!(prefetch_budget(0, 32, false), None);
    assert_eq!(prefetch_budget(32, 32, false), None);
    assert_eq!(prefetch_budget(1, 32, true), None);
}

#[test]
fn prefetch_descends_from_expanded_root_to_missing_child() {
    let (mut tree, root) = start_tree();
    let only = mv("a0", "a1");
    tree.node_mut(root).create_single_child_node(only);
    tree.node_mut(root).edge_mut(0).set_p(prior(1.0));
    visited(tree.node_mut(root), 0.0, 0.0, 0.0);
    let mut path = Vec::new();
    let mut plan: Vec<Vec<Move>> = Vec::new();
    let spent =
        prefetch_into_cache(&tree, &params(), false, Some(root), 1, false, false, &mut path, &mut plan);
    assert_eq!(spent, 1);
    assert!(path.is_empty());
    assert_eq!(plan, vec![vec![only]]);
}

#[test]
fn prefetch_goes_through_the_best_edges_first() {
    let (mut tree, root) = start_tree();
    tree.node_mut(root).create_edges(&board_moves());
    for (edge, p) in [0.25, 0.5, 0.125].iter().enumerate() {
        tree.node_mut(root).edge_mut(edge).set_p(prior(*p));
    }
    visited(tree.node_mut(root), 0.0, 0.0, 0.0);
    let mut path = Vec::new();
    let mut plan: Vec<Vec<Move>> = Vec::new();
    let spent =
        prefetch_into_cache(&tree, &params(), false, Some(root), 2, false, false, &mut path, &mut plan);
    assert_eq!(spent, 2);
    assert_eq!(plan, vec![vec![mv("b0", "b1")], vec![mv("a0", "a1")]]);
}

#[test]
fn draw_score_flips_with_root_side_and_depth() {
    let mut params = params();
    params.weights.draw_score = F32(0.25);
    assert!((draw_score(&params, false, false).0 - 0.25).abs() < f32::EPSILON);
    assert!((draw_score(&params, false, true).0 + 0.25).abs() < f32::EPSILON);
}

fn two_ply_tree() -> (NodeTree<F32>, usize, usize) {
    let (mut tree, root) = start_tree();
    tree.node_mut(root).create_single_child_node(mv("a0", "a1"));
    tree.node_mut(root).edge_mut(0).set_p(prior(1.0));
    visited(tree.node_mut(root), 0.0, 0.0, 0.0);
    let child = tree.arena_mut().spawn_child(root, 0);
    tree.node_mut(child).create_single_child_node(mv("b0", "b1"));
    tree.node_mut(child).edge_mut(0).set_p(prior(1.0));
    visited(tree.node_mut(child), 0.0, 0.0, 0.0);
    (tree, root, child)
}

fn pick(tree: &mut NodeTree<F32>, root: usize, limit: u32) -> Vec<NodeToProcess<F32>> {
    let params = params();
    let filter = Vec::new();
    let context = SelectionContext {
        params: &params,
        root_move_filter: &filter,
        remaining_playouts: 1_000_000,
        current_best_edge: None,
        root_is_black: false,
        task_workers: 0,
    };
    let mut items = Vec::new();
    pick_nodes_to_extend_task(
        &context,
        tree,
        &mut PickTaskQueue::new(),
        root,
        0,
        limit,
        &Vec::new(),
        &mut items,
        true,
    )
    .expect("pick nodes");
    items
}

#[test]
fn selection_workspace_keeps_full_path_to_two_ply_leaf() {
    let (mut tree, root, _) = two_ply_tree();
    let items = pick(&mut tree, root, 1);
    let visit = items.iter().find(|item| !item.is_collision).expect("leaf visit");
    assert_eq!(visit.moves_to_visit, vec![mv("a0", "a1"), mv("b0", "b1")]);
    assert_eq!(visit.depth, 3);
}

#[test]
fn gathering_handoff_relinquishes_parent_edge_only_after_enqueue() {
    let (mut tree, root) = start_tree();
    let only = mv("a0", "a1");
    tree.node_mut(root).create_single_child_node(only);
    let child = tree.arena_mut().spawn_child(root, 0);
    visited(tree.node_mut(child), 0.0, 0.0, 0.0);
    let mut queue = PickTaskQueue::new();
    queue.reset();
    let mut visits = vec![3];
    assert!(hand_off_gathering_task(&mut queue, &tree, &Vec::new(), root, 0, 1, &mut visits));
    assert_eq!(visits[0], 0);

    let claimed = queue.take().expect("published gathering task");
    assert_eq!(claimed.task.kind, PickTaskKind::Gathering);
    assert_eq!(claimed.task.start, Some(child));
    assert_eq!(claimed.task.base_depth, 1);
    assert_eq!(claimed.task.moves_to_base, vec![only]);
    assert_eq!(claimed.task.collision_limit, 3);
    queue.complete(claimed);
    assert!(queue.is_done());
}

#[test]
fn gathering_task_roots_are_disjoint_for_the_whole_phase() {
    let (mut tree, root) = start_tree();
    let moves = board_moves();
    tree.node_mut(root).create_edges(&moves[..2].to_vec());
    let first = tree.arena_mut().spawn_child(root, 0);
    let second = tree.arena_mut().spawn_child(root, 1);
    tree.node_mut(first).create_single_child_node(moves[2]);
    let grandchild = tree.arena_mut().spawn_child(first, 0);

    let mut queue = PickTaskQueue::new();
    queue.reset();
    assert!(queue.push_gathering(&tree, PickTask::gathering(first, 1, vec![moves[0]], 8)));
    assert!(queue.push_gathering(&tree, PickTask::gathering(second, 1, vec![moves[1]], 8)));
    assert!(!queue.push_gathering(&tree, PickTask::gathering(first, 1, vec![moves[0]], 8)));
    assert!(!queue.push_gathering(&tree, PickTask::gathering(grandchild, 2, vec![moves[0], moves[2]], 4)));
    assert_eq!(queue.task_count, 2);
}

#[test]
fn queued_gathering_task_merges_into_minibatch() {
    let (mut tree, root) = start_tree();
    let only = mv("a0", "a1");
    tree.node_mut(root).create_single_child_node(only);
    tree.node_mut(root).edge_mut(0).set_p(prior(1.0));
    visited(tree.node_mut(root), 0.0, 0.0, 0.0);
    let mut queue = PickTaskQueue::new();
    queue.reset();
    assert!(queue.push(PickTask::gathering(root, 0, Vec::new(), 1)));
    let mut claimed = queue.take().expect("task");
    claimed.task.results = pick(&mut tree, root, 1);
    queue.complete(claimed);
    let mut minibatch = Vec::new();
    queue.drain_results_into(&mut minibatch);
    assert_eq!(minibatch.len(), 1);
    assert!(!minibatch[0].is_collision);
    assert_eq!(minibatch[0].moves_to_visit, vec![only]);
}

#[test]
fn task_runner_processing_owns_its_workspace() {
    let (mut tree, root) = start_tree();
    tree.make_terminal(root, GameResult::Draw, F32(0.0), Terminal::EndOfGame);
    let mut item = NodeToProcess::visit(root, 1);
    assert!(!prepare_entry(&mut tree, &mut item, &leaf(1), true));
    assert_eq!(tree.history().len(), 1);
    assert!(!item.nn_queried);
}

#[test]
fn pick_task_queue_wakes_and_closes_like_px0_run_tasks() {
    let mut queue = PickTaskQueue::<F32>::new();
    assert!(matches!(queue.poll_blocking(), TaskPoll::Spin));
    assert!(queue.push(PickTask::processing(3, 5)));
    match queue.poll_blocking() {
        TaskPoll::Run(claimed) => {
            assert_eq!(claimed.id, 0);
            assert_eq!(claimed.task.kind, PickTaskKind::Processing);
            assert_eq!((claimed.task.start_idx, claimed.task.end_idx), (3, 5));
        }
        other => panic!("no task: {other:?}"),
    }
    let mut closing = PickTaskQueue::<F32>::new();
    closing.close();
    assert!(matches!(closing.poll_blocking(), TaskPoll::Leave));
}

#[test]
fn pick_task_queue_waits_for_phase_publish_then_seal() {
    let mut queue = PickTaskQueue::<F32>::new();
    queue.reset();
    assert!(matches!(queue.poll_until_phase_sealed(), TaskPoll::Sleep));
    queue.push(PickTask::processing(0, 1));
    queue.seal_phase();
    let mut completed = 0;
    while let TaskPoll::Run(task) = queue.poll_until_phase_sealed() {
        queue.complete(task);
        completed += 1;
    }
    assert_eq!(completed, 1);
    assert!(matches!(queue.poll_until_phase_sealed(), TaskPoll::Leave));
    assert!(queue.is_done());
}

#[test]
fn pick_task_queue_claims_each_published_task_once() {
    let mut queue = PickTaskQueue::<F32>::new();
    queue.reset();
    for index in 0..32 {
        assert!(queue.push(PickTask::processing(index, index + 1)));
    }
    let mut claimed = Vec::new();
    while let Some(task) = queue.take() {
        claimed.push(task.id);
    }
    assert_eq!(claimed, (0..32).collect::<Vec<_>>());
}

#[test]
fn pick_task_queue_returns_owned_gather_results_once() {
    let mut queue = PickTaskQueue::<F32>::new();
    queue.reset();
    assert!(queue.push(PickTask::gathering(7, 2, Vec::new(), 1)));
    let mut claimed = queue.take().expect("claimed gathering task");
    claimed.task.results.push(NodeToProcess::visit(11, 3));
    queue.complete(claimed);
    let mut results = Vec::new();
    queue.drain_results_into(&mut results);
    assert_eq!(results.len(), 1);
    assert_eq!(results[0].node_idx, 11);
    assert_eq!(results[0].depth, 3);
}

#[test]
fn processing_task_ranges_are_disjoint_from_main_suffix() {
    let mut queue = PickTaskQueue::<F32>::new();
    let mut params = params();
    params.minimum_work_size_for_processing = 2;
    params.minimum_work_per_task_for_processing = 2;
    let minibatch = vec![
        NodeToProcess::visit(0, 1),
        NodeToProcess::collision(1, 1, 1, 1),
        NodeToProcess::visit(2, 1),
        NodeToProcess::visit(3, 1),
        NodeToProcess::collision(4, 1, 1, 1),
        NodeToProcess::visit(5, 1),
        NodeToProcess::visit(6, 1),
        NodeToProcess::visit(7, 1),
    ];
    let (main_start, needs_wait) = split_processing_tasks(&mut queue, &params, 2, &minibatch, 0, 6);
    assert!(needs_wait);
    assert_eq!(queue.task_count, queue.tasks.len() as isize);
    assert!(!queue.is_done());
    let mut ranges = Vec::new();
    while let Some(claimed) = queue.take() {
        ranges.push((claimed.task.start_idx, claimed.task.end_idx));
        queue.complete(claimed);
    }
    assert_eq!(ranges, vec![(0, 3), (3, 6)]);
    assert!(ranges.windows(2).all(|pair| pair[0].1 <= pair[1].0));
    assert!(ranges.last().is_some_and(|range| range.1 <= main_start));
    assert_eq!(main_start, 6);
}

#[test]
fn pick_task_queue_idles_then_reuses_worker_next_iteration() {
    let mut queue = PickTaskQueue::<F32>::new();
    assert!(queue.push(PickTask::processing(0, 1)));
    assert!(matches!(queue.poll_blocking(), TaskPoll::Run(task) if task.id == 0));
    queue.idle();
    assert!(matches!(queue.poll_blocking(), TaskPoll::Sleep));
    queue.reset();
    assert!(matches!(queue.poll_blocking(), TaskPoll::Spin));
    assert!(queue.push(PickTask::processing(1, 2)));
    assert!(matches!(queue.poll_blocking(), TaskPoll::Run(task) if task.id == 0));
}

#[test]
fn gathering_processes_full_batch_without_task_workers() {
    let (mut tree, root) = start_tree();
    let moves: Vec<Move> = (0..40u8).map(|to| Move { from: 0, to: to + 1 }).collect();
    tree.node_mut(root).create_edges(&moves);
    for edge in 0..moves.len() {
        tree.node_mut(root).edge_mut(edge).set_p(prior(1.0 / moves.len() as f32));
    }
    visited(tree.node_mut(root), 0.0, 0.0, 0.0);
    let mut params = params();
    params.minibatch_size = 32;
    params.out_of_order_eval = false;
    let mut state = WorkerSearchState::new(false);
    let iteration = gather(&mut tree, &mut state, &params, 0, &|_| false);
    assert!(iteration.minibatch.len() >= 2);
    assert!(iteration.queried >= 2);
}

#[test]
fn reused_twofold_terminal_is_reverted_before_selection() {
    let (mut tree, root) = start_tree();
    tree.node_mut(root).create_single_child_node(mv("a0", "a1"));
    let child = tree.arena_mut().spawn_child(root, 0);
    tree.make_terminal(child, GameResult::Draw, F32(3.0), Terminal::TwoFold);
    visited(tree.node_mut(child), 0.0, 1.0, 3.0);
    visited(tree.node_mut(root), 0.0, 1.0, 4.0);
    ensure_node_twofold_correct_for_depth(&mut tree, child, 1);
    assert!(!tree.node(child).is_terminal());
    assert_eq!(tree.node(child).n(), 0);
    assert_eq!(tree.node(root).n(), 0);
}

#[test]
fn extend_node_marks_complete_first_repetition_as_twofold() {
    let (mut tree, root) = start_tree();
    tree.node_mut(root).create_single_child_node(mv("a0", "a1"));
    let child = tree.arena_mut().spawn_child(root, 0);
    let mut positions: Vec<Position> = [1, 2, 3, 4].iter().map(|&b| position(b, b % 2 == 0)).collect();
    positions.push(Position { repetitions: 1, cycle_length: 4, ..position(1, false) });
    let leaf = LeafPosition {
        legal_moves: board_moves(),
        positions,
        rule_judge: GameResult::Draw,
        has_mating_material: true,
    };
    extend_node(&mut tree, child, 5, &leaf, true);
    assert!(tree.node(child).is_twofold_terminal());
    assert!((tree.node(child).m().0 - 4.0).abs() < f32::EPSILON);
    assert_eq!(classify_leaf(&leaf, 5, true, true), Extension::Expand);
}

#[test]
fn leaves_without_moves_are_won_for_either_side() {
    for depth in [1, 2] {
        let (mut tree, root) = start_tree();
        tree.node_mut(root).create_single_child_node(mv("a0", "a1"));
        let child = tree.arena_mut().spawn_child(root, 0);
        let leaf = LeafPosition { legal_moves: Vec::new(), ..leaf(depth) };
        assert_eq!(leaf.positions[depth].black_to_move, depth == 1);
        assert!(matches!(
            classify_leaf(&leaf, depth as u16, false, true),
            Extension::Terminal { result: GameResult::WhiteWon, kind: Terminal::EndOfGame, .. }
        ));
        extend_node(&mut tree, child, depth as u16, &leaf, true);
        assert!(tree.node(child).is_terminal());
        assert_eq!(tree.node(child).wl().0, 1.0);
        assert_eq!(tree.node(child).d().0, 0.0);
        assert_eq!(tree.node(child).m().0, 0.0);
    }
}

#[test]
fn legacy_stopper_saves_unused_time_after_search() {
    let mut manager = LegacyTimeManager::new(200, F32(1.0));
    let go = GoParams { wtime: Some(10_000), ..GoParams::default() };
    let mut stopper =
        manager.get_stopper(&go, false, 0, F32(51.5), &legacy_weights()).expect("clock stopper");
    let mut hints = StoppersHints::default();
    assert!(!stopper.should_stop(&IterationStats::default(), &mut hints));
    assert!(stopper.time_limit_ms() > 0);
    manager.on_search_done(&stopper, 1);
    assert!(manager.time_spared_ms() > 0);
    assert!(manager.get_stopper(&go, true, 0, F32(51.5), &legacy_weights()).is_none());
}

#[test]
fn reports_hold_the_best_lines() {
    let (tree, root, _) = two_ply_tree();
    let counters = ReportCounters {
        total_playouts: 10,
        network_evaluations: 5,
        cum_depth: 30,
        max_depth: 4,
        initial_visits: 2,
        elapsed_ms: 100,
        nps_elapsed_ms: Some(50),
    };
    let infos = snapshot_infos(&tree, &params(), false, &Vec::new(), &counters);
    assert_eq!(infos.len(), 1);
    assert_eq!((infos[0].depth, infos[0].seldepth, infos[0].time, infos[0].nodes), (3, 4, 100, 12));
    assert_eq!((infos[0].nps, infos[0].eps), (Some(200), Some(100)));
    assert_eq!(infos[0].pv, principal_variation(&tree, &params(), false, root, 0, false, false));
    assert_eq!(infos[0].pv[0], mv("a0", "a1"));
    assert_eq!(infos[0].multipv, None);
    assert_eq!(infos[0].ends_after, None);
}

#[test]
fn ended_lines_report_the_mate() {
    let (mut tree, root, child) = two_ply_tree();
    tree.make_terminal(child, GameResult::WhiteWon, F32(4.0), Terminal::EndOfGame);
    assert_eq!(tree.node(root).n(), 1);
    let counters = ReportCounters {
        total_playouts: 2,
        network_evaluations: 0,
        cum_depth: 3,
        max_depth: 2,
        initial_visits: 0,
        elapsed_ms: 10,
        nps_elapsed_ms: None,
    };
    let infos = snapshot_infos(&tree, &params(), false, &Vec::new(), &counters);
    assert_eq!(infos[0].ends_after, Some(3));
    assert_eq!((infos[0].nps, infos[0].eps), (None, None));
    assert_eq!(mate_distance(infos[0].ends_after, infos[0].wl), Some(3));
    assert_eq!(mate_distance(Some(3), F32(-0.5)), Some(-3));
    assert_eq!(mate_distance(Some(3), F32(0.0)), None);
    assert_eq!(mate_distance(None, F32(1.0)), None);
    let (best, ponder) = (mv("a0", "a1"), mv("b0", "b1"));
    let won = vec![ShownValue { score: 77, wl: infos[0].wl, d: infos[0].d }];
    let output = snapshot_output(best, ponder, &infos, &won).expect("output");
    assert_eq!((output.best_move, output.ponder), (best, ponder));
    assert_eq!((output.infos[0].mate, output.infos[0].score), (Some(3), None));
    assert_eq!((output.infos[0].depth, output.infos[0].nodes), (infos[0].depth, infos[0].nodes));
    assert_eq!(output.infos[0].pv, infos[0].pv);
    let even = vec![ShownValue { score: 77, wl: F32(0.0), d: F32(1.0) }];
    let output = snapshot_output(best, ponder, &infos, &even).expect("output");
    assert_eq!((output.infos[0].mate, output.infos[0].score), (None, Some(77)));
    let wdl = &output.infos[0].wdl;
    assert_eq!((wdl.w, wdl.d, wdl.l), (0, 1000, 0));
    assert!(snapshot_output(Move::null(), ponder, &infos, &even).is_none());
}

#[test]
fn the_uniform_backend_shares_evenly() {
    let backend = UniformBackend { wl: F32(0.2), d: F32(0.3), m: F32(4.0) };
    let answer = backend.evaluate(&vec![position(1, false)], &board_moves()[..2].to_vec());
    assert_eq!((answer.wl, answer.d, answer.m), (F32(0.2), F32(0.3), F32(4.0)));
    assert_eq!(answer.policies, vec![F32(0.5), F32(0.5)]);
    assert_eq!(UniformBackend::<F32>::default().recommended_batch_size(), 1);
}

#[test]
fn fast_searches_are_held_back() {
    assert!(exceeds_nps_limit(false, 10, 1, F32(100.0)));
    assert!(!exceeds_nps_limit(false, 10, 1000, F32(100.0)));
    assert!(!exceeds_nps_limit(true, 10, 1, F32(100.0)));
    assert!(!exceeds_nps_limit(false, 10, 1, F32(0.0)));
}

#[test]
fn results_without_a_ticket_are_refused() {
    let (mut tree, root) = start_tree();
    let mut item = NodeToProcess::visit(root, 1);
    item.nn_queried = true;
    let error = fetch_single_node_result(&mut tree, &mut item, &None).err().expect("refused");
    assert_eq!(error.message(), "evaluation result without a ticket");
    item.eval_ticket = Some(1);
    let error = fetch_single_node_result(&mut tree, &mut item, &None).err().expect("refused");
    assert_eq!(error.message(), "evaluation result without a computation");
}

#[test]
fn handed_on_visits_are_all_placed() {
    let (mut tree, root) = start_tree();
    let mut params = params();
    params.minimum_remaining_work_size_for_picking = 0;
    params.minibatch_size = 64;
    params.max_collision_visits = 64;
    params.max_collision_visits_scaling_start = 0;
    params.max_collision_visits_scaling_end = 1;
    let mut state = WorkerSearchState::new(false);
    while state.total_playouts < 300 {
        iterate(&mut tree, &mut state, &params, 4, &|_| false);
        assert!(nothing_under_way(&tree));
    }
    assert_eq!(tree.node(root).n() as u64, state.total_playouts);
}

#[test]
fn settings_apply_to_the_next_game() {
    let mut search = search(params());
    search.set_uci_info_options(3, true, ScoreType::Q, F32(50.0));
    assert_eq!((search.params.multi_pv, search.params.per_pv_counters), (3, true));
    assert_eq!(search.params.score_type, ScoreType::Q);
    assert_eq!(search.params.weights.nps_limit, F32(50.0));
    search.set_wdl_options(F32(1.5), F32(0.25), F32(0.7), F32(0.5), ContemptMode::Black);
    let weights = search.params.weights;
    assert_eq!((weights.wdl_rescale_ratio, weights.wdl_rescale_diff), (F32(1.5), F32(0.25)));
    assert_eq!((weights.wdl_max_s, weights.wdl_eval_objectivity), (F32(0.7), F32(0.5)));
    assert_eq!(search.params.contempt_mode, ContemptMode::Black);
    assert_eq!(weights.nps_limit, F32(50.0));
    search.set_time_management_options(500, F32(0.8));
    assert_eq!(search.time_manager.move_overhead_ms(), 200);
    search.start_clock(77);
    assert_eq!(search.clock.move_start_ms, 77);
    assert_eq!(search.total_root_visits(), 0);
    search.worker.total_playouts = 9;
    search.new_game();
    assert_eq!(search.time_manager.move_overhead_ms(), 500);
    assert_eq!(search.worker.total_playouts, 0);
    assert!(search.tree.current_head.is_none());
    assert!(search.tree.arena.nodes.is_empty() && search.tree.history().is_empty());
}

#[test]
fn priors_are_copied_to_the_front() {
    let mut node = Node::<F32>::new(None, 0);
    node.create_edges(&board_moves());
    node.edge_mut(0).set_p(prior(0.5));
    node.edge_mut(1).set_p(prior(0.25));
    let mut out = vec![7, 7, 7];
    node.copy_policy(2, &mut out);
    assert_eq!(f32::from_bits(out[0]), 0.5);
    assert_eq!(f32::from_bits(out[1]), 0.25);
    assert_eq!(out[2], 7);
}

#[test]
fn the_leading_edge_has_the_best_score() {
    let reals = |values: &[f32]| values.iter().map(|&value| F32(value)).collect::<Vec<_>>();
    let mut candidates = Candidates {
        policy: reals(&[0.4, 0.3, 0.2, 0.1]),
        utility: reals(&[0.0; 4]),
        n_started: vec![5, 3, 0, 0],
        score: reals(&[0.25, 0.5, 0.125, 0.75]),
        admissible: vec![true; 4],
    };
    let leaders = scan_edges(&candidates, 4);
    assert_eq!((leaders.best, leaders.best_score, leaders.second), (Some(1), F32(0.5), Some(F32(0.25))));
    assert!(leaders.finished);
    candidates.admissible = vec![true, false, false, true];
    assert_eq!(scan_edges(&candidates, 4).best, Some(3));
    candidates.admissible = vec![false; 4];
    assert_eq!(scan_edges(&candidates, 4).best, None);
}
