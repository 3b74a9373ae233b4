//! Filling one batch: what to pick next, what to do with each entry, and how
//! entries leave the batch again.
use vstd::prelude::*;

use crate::classic::backup::WorkerSearchState;
use crate::classic::extend::{extend_node, extension_of, Extension, LeafPosition};
use crate::classic::node::{prior_code, Edge, Node, Terminal, PRIOR_ONE_BITS};
use crate::classic::params::{ContemptMode, SearchParams};
use crate::classic::tasks::{Evaluation, NodeToProcess};
use crate::classic::tree::{lemma_update_keeps_links, NodeTree};
use crate::error::EnginError;
use crate::position::Move;
use crate::scalar::Scalar;

verus! {

/// Whether a batch being filled should stop because other workers can keep the
/// backend busy: more than `threshold` threads do not wait for it.
pub fn should_yield_for_backend(thread_count: usize, waiting: i32, threshold: i32) -> (r: bool)
    requires
        thread_count <= i32::MAX,
    ensures
        r == (thread_count > 1 && thread_count - waiting > threshold),
{
    thread_count > 1 && thread_count as i64 - waiting as i64 > threshold as i64
}

/// What came of asking for a permit to gather.
#[derive(Clone, Copy, Debug, PartialEq, Eq, Structural)]
pub enum Permit {
    Granted,
    /// The search is over.
    Refused,
    /// All permits are taken; ask again.
    Wait,
}

/// Asks for a permit to gather. A search that has not completed a playout goes on
/// even when it was told to stop.
pub fn acquire_searcher_permit(
    state: &mut WorkerSearchState,
    max_concurrent_searchers: i32,
) -> (r: Permit)
    ensures
        r == (if max_concurrent_searchers == 0 {
            Permit::Granted
        } else if old(state).stop && old(state).total_playouts > 0 {
            Permit::Refused
        } else if old(state).pending_searchers > 0 {
            Permit::Granted
        } else {
            Permit::Wait
        }),
        *final(state) == (WorkerSearchState {
            pending_searchers: if max_concurrent_searchers != 0 && r == Permit::Granted {
                (old(state).pending_searchers - 1) as i32
            } else {
                old(state).pending_searchers
            },
            ..*old(state)
        }),
{
    if max_concurrent_searchers == 0 {
        return Permit::Granted;
    }
    if state.stop && state.total_playouts > 0 {
        return Permit::Refused;
    }
    if state.pending_searchers > 0 {
        state.pending_searchers = state.pending_searchers - 1;
        return Permit::Granted;
    }
    Permit::Wait
}

/// Gives a permit back.
pub fn release_searcher_permit(state: &mut WorkerSearchState, max_concurrent_searchers: i32)
    requires
        old(state).pending_searchers < i32::MAX,
    ensures
        *final(state) == (WorkerSearchState {
            pending_searchers: if max_concurrent_searchers != 0 {
                (old(state).pending_searchers + 1) as i32
            } else {
                old(state).pending_searchers
            },
            ..*old(state)
        }),
{
    if max_concurrent_searchers != 0 {
        state.pending_searchers = state.pending_searchers + 1;
    }
}

/// A permit that was granted and given back leaves the state as it was.
pub proof fn law_release_undoes_acquire(
    before: WorkerSearchState,
    during: WorkerSearchState,
    after: WorkerSearchState,
    max_concurrent_searchers: i32,
)
    requires
        before.pending_searchers > 0 || max_concurrent_searchers == 0,
        during == (WorkerSearchState {
            pending_searchers: if max_concurrent_searchers != 0 {
                (before.pending_searchers - 1) as i32
            } else {
                before.pending_searchers
            },
            ..before
        }),
        after == (WorkerSearchState {
            pending_searchers: if max_concurrent_searchers != 0 {
                (during.pending_searchers + 1) as i32
            } else {
                during.pending_searchers
            },
            ..during
        }),
    ensures
        after == before,
{
}

/// How many task workers a search worker gets: what is configured, or none on a
/// backend that needs the processor itself, or a share of the hardware threads.
pub fn resolve_task_workers(
    configured: i32,
    runs_on_cpu: bool,
    thread_count: usize,
    hardware_threads: usize,
) -> (r: i32)
    ensures
        r == (if configured >= 0 {
            configured as int
        } else if runs_on_cpu {
            0
        } else {
            let working = if thread_count > 2 {
                thread_count - 1
            } else {
                1
            };
            let share = hardware_threads as int / working;
            if share == 0 || share > 4 {
                4
            } else {
                share - 1
            }
        }),
{
    if configured >= 0 {
        return configured;
    }
    if runs_on_cpu {
        return 0;
    }
    let working: usize = if thread_count > 2 {
        thread_count - 1
    } else {
        1
    };
    let share: usize = hardware_threads / working;
    if share == 0 || share > 4 {
        4
    } else {
        share as i32 - 1
    }
}

/// How many entries a batch should have: what is configured, or else what the
/// backend recommends, at least one.
pub fn target_minibatch_size(configured: i32, recommended: usize) -> (r: usize)
    ensures
        r == (if configured > 0 {
            configured as int
        } else if recommended > 0 {
            recommended as int
        } else {
            1
        }),
{
    if configured > 0 {
        configured as usize
    } else if recommended > 0 {
        recommended
    } else {
        1
    }
}

/// How a batch is filling up.
#[derive(Clone, Copy, Debug, PartialEq, Eq, Structural)]
pub struct GatherState {
    /// Visits that may still collide.
    pub collisions_left: i32,
    /// Entries that wait for the network.
    pub minibatch_size: usize,
    /// Entries that were completed without waiting for it.
    pub number_out_of_order: usize,
}

/// What a round of gathering reads.
#[derive(Clone, Copy, Debug)]
pub struct GatherLimits {
    pub target_minibatch_size: usize,
    pub max_out_of_order: usize,
    pub idling_minimum_work: u32,
    pub yield_for_backend: bool,
}

impl GatherState {
    /// The state at the beginning of a batch, for a root with `root_n` visits and an
    /// expected number of remaining playouts.
    pub fn begin<S: Scalar>(
        params: &SearchParams<S>,
        root_n: u32,
        remaining_playouts: i64,
        interpolated: i32,
    ) -> (r: Self)
        requires
            remaining_playouts <= u32::MAX,
        ensures
            r.minibatch_size == 0,
            r.number_out_of_order == 0,
            r.collisions_left == params.spec_collisions_left(
                (if remaining_playouts < 0 {
                    0
                } else if remaining_playouts < root_n {
                    remaining_playouts as int
                } else {
                    root_n as int
                }) as i64,
                interpolated,
            ),
    {
        let remaining: i64 = if remaining_playouts < 0 {
            0
        } else {
            remaining_playouts
        };
        let nodes: i64 = if remaining < root_n as i64 {
            remaining
        } else {
            root_n as i64
        };
        GatherState {
            collisions_left: params.collisions_left(nodes, interpolated),
            minibatch_size: 0,
            number_out_of_order: 0,
        }
    }

    /// Whether the batch takes no further entries: it is full, or nothing in it
    /// waits for the network, or others should use the backend now.
    pub open spec fn is_full(self, limits: GatherLimits, used_batch_size: int) -> bool {
        ||| self.minibatch_size >= limits.target_minibatch_size
        ||| self.number_out_of_order >= limits.max_out_of_order
        ||| self.minibatch_size > 0 && used_batch_size == 0
        ||| self.minibatch_size > 0 && used_batch_size > limits.idling_minimum_work
            && limits.yield_for_backend
    }

    /// How many visits the next round may pick.
    pub open spec fn spec_budget(self, limits: GatherLimits) -> int {
        let room = limits.target_minibatch_size - self.minibatch_size;
        let completable = limits.max_out_of_order - self.number_out_of_order;
        let least = if self.collisions_left <= room && self.collisions_left <= completable {
            self.collisions_left as int
        } else if room <= completable {
            room
        } else {
            completable
        };
        if least < 0 {
            0
        } else {
            least
        }
    }

    /// How many visits the next round may pick, if there is to be one.
    pub fn next_round(&self, limits: &GatherLimits, used_batch_size: usize) -> (r: Option<u32>)
        requires
            limits.target_minibatch_size <= i32::MAX,
            limits.max_out_of_order <= i32::MAX,
        ensures
            r is None == self.is_full(*limits, used_batch_size as int),
            r matches Some(budget) ==> budget == self.spec_budget(*limits),
    {
        if self.minibatch_size >= limits.target_minibatch_size || self.number_out_of_order
            >= limits.max_out_of_order {
            return None;
        }
        if self.minibatch_size > 0 && used_batch_size == 0 {
            return None;
        }
        if self.minibatch_size > 0 && used_batch_size as u64 > limits.idling_minimum_work as u64
            && limits.yield_for_backend {
            return None;
        }
        let room: i64 = limits.target_minibatch_size as i64 - self.minibatch_size as i64;
        let completable: i64 = limits.max_out_of_order as i64 - self.number_out_of_order as i64;
        let mut budget: i64 = self.collisions_left as i64;
        if room < budget {
            budget = room;
        }
        if completable < budget {
            budget = completable;
        }
        if budget < 0 {
            budget = 0;
        }
        Some(budget as u32)
    }
}

/// The value that counts against the player to move at depth `depth`: whether
/// contempt raises or lowers it there.
pub open spec fn contempt_favours(contempt: ContemptMode, root_is_black: bool, depth: u16) -> bool {
    ((contempt == ContemptMode::Black) == root_is_black) != (depth % 2 == 1)
}

/// How an evaluation is to be rescaled before it counts.
#[derive(Clone, Copy, Debug)]
pub struct Rescale<S> {
    pub ratio: S,
    pub diff: S,
    pub favourable: bool,
}

/// Whether and how evaluations at a depth are to be rescaled: not at all where the
/// scale is neutral and no side is favoured.
pub fn rescale_request<S: Scalar>(
    params: &SearchParams<S>,
    root_is_black: bool,
    depth: u16,
) -> (r: Option<Rescale<S>>)
    ensures
        r is Some == (!params.weights.wdl_rescale_ratio.spec_same(S::spec_one()) || (
        !params.weights.wdl_rescale_diff.spec_same(S::spec_zero()) && params.contempt_mode
            != ContemptMode::Disable)),
        r matches Some(rescale) ==> {
            &&& rescale.ratio == params.weights.wdl_rescale_ratio
            &&& rescale.diff == (if params.contempt_mode == ContemptMode::Disable {
                S::spec_zero()
            } else {
                params.weights.wdl_rescale_diff
            })
            &&& rescale.favourable == contempt_favours(params.contempt_mode, root_is_black, depth)
        },
{
    if params.weights.wdl_rescale_ratio.same(S::one()) && (params.weights.wdl_rescale_diff.same(
        S::zero(),
    ) || params.contempt_mode == ContemptMode::Disable) {
        return None;
    }
    let root_favoured: bool = (params.contempt_mode == ContemptMode::Black) == root_is_black;
    Some(
        Rescale {
            ratio: params.weights.wdl_rescale_ratio,
            diff: if params.contempt_mode == ContemptMode::Disable {
                S::zero()
            } else {
                params.weights.wdl_rescale_diff
            },
            favourable: root_favoured != (depth % 2 == 1),
        },
    )
}

/// Prepares one entry of a batch: a leaf that is not terminal is extended. Returns
/// whether the network has to evaluate it.
pub fn prepare_entry<S: Scalar>(
    tree: &mut NodeTree<S>,
    item: &mut NodeToProcess<S>,
    leaf: &LeafPosition,
    two_fold_draws: bool,
) -> (r: bool)
    requires
        old(tree).wf(),
        old(item).node_idx < old(tree).nodes().len(),
        leaf.positions@.len() > 0,
        leaf.legal_moves@.len() <= u8::MAX,
        !old(item).is_collision && !old(tree).nodes()[old(item).node_idx as int].spec_is_terminal()
            ==> old(tree).nodes()[old(item).node_idx as int].edges@.len() == 0,
        old(tree).nodes()[old(item).node_idx as int].parent matches Some(p)
            ==> old(tree).nodes()[old(item).node_idx as int].edge_index
            < old(tree).nodes()[p as int].edges@.len(),
    ensures
        final(tree).wf(),
        *final(tree) == (NodeTree { arena: final(tree).arena, ..*old(tree) }),
        old(item).is_collision ==> !r && final(tree).nodes() == old(tree).nodes() && *final(item)
            == *old(item),
        !old(item).is_collision ==> final(item).moves_to_visit@.len() == 0 && *final(item) == (
        NodeToProcess { moves_to_visit: final(item).moves_to_visit, ..*old(item) }),
        !old(item).is_collision && old(tree).nodes()[old(item).node_idx as int].spec_is_terminal()
            ==> !r && final(tree).nodes() == old(tree).nodes(),
        !old(item).is_collision && !old(tree).nodes()[old(item).node_idx as int].spec_is_terminal()
            ==> match extension_of(
            *leaf,
            old(item).depth,
            old(tree).current_head == Some(old(item).node_idx),
            two_fold_draws,
        ) {
            Extension::Terminal { result, plies_left, kind } => r == (kind
                == Terminal::NonTerminal) && NodeTree::<S>::after_make_terminal(
                old(tree).nodes(),
                final(tree).nodes(),
                old(item).node_idx as int,
                result,
                S::spec_count(plies_left),
                kind,
            ),
            Extension::Expand => {
                let i = old(item).node_idx as int;
                &&& r
                &&& final(tree).nodes() == old(tree).nodes().update(i, final(tree).nodes()[i])
                &&& final(tree).nodes()[i] == (Node {
                    edges: final(tree).nodes()[i].edges,
                    children: final(tree).nodes()[i].children,
                    ..old(tree).nodes()[i]
                })
                &&& final(tree).nodes()[i].edges@ == leaf.legal_moves@.map_values(
                    |mv: Move| Edge { mv, p: 0 },
                )
                &&& final(tree).nodes()[i].children@ == Seq::new(
                    leaf.legal_moves@.len(),
                    |k: int| None::<usize>,
                )
            },
        },
{
    if item.is_collision {
        return false;
    }
    item.moves_to_visit = Vec::new();
    if item.is_extendable(tree.node(item.node_idx).is_terminal()) {
        extend_node(tree, item.node_idx, item.depth, leaf, two_fold_draws);
        return !tree.node(item.node_idx).is_terminal();
    }
    false
}

/// Records that the network was asked for an entry, and whether it answered from
/// its cache.
pub fn record_query<S: Scalar>(item: &mut NodeToProcess<S>, ticket: u64, is_cache_hit: bool)
    ensures
        *final(item) == (NodeToProcess {
            nn_queried: true,
            is_cache_hit,
            eval_ticket: Some(ticket),
            ..*old(item)
        }),
{
    item.nn_queried = true;
    item.is_cache_hit = is_cache_hit;
    item.eval_ticket = Some(ticket);
}

/// Whether an entry is to be completed at once: its result does not wait for the
/// network. Collisions never are.
pub fn completes_out_of_order<S: Scalar>(
    params: &SearchParams<S>,
    item: &NodeToProcess<S>,
    is_terminal: bool,
) -> (r: bool)
    ensures
        r == (!item.is_collision && params.out_of_order_eval && item.spec_can_eval_out_of_order(
            is_terminal,
        )),
{
    !item.is_collision && params.out_of_order_eval && item.can_eval_out_of_order(is_terminal)
}

/// What the network said about a position: value, draw and length, seen by the
/// player who moved there, and the priors of the moves as bit patterns.
#[derive(Debug)]
pub struct Reply<S> {
    pub eval: Evaluation<S>,
    pub policies: Vec<u32>,
}

impl<S: Scalar> Reply<S> {
    /// Whether a reply can be entered at a node.
    pub open spec fn fits(self, node: Node<S>) -> bool {
        &&& self.policies@.len() <= node.edges@.len()
        &&& forall|e: int|
            0 <= e < self.policies@.len() ==> #[trigger] self.policies@[e] <= PRIOR_ONE_BITS
        &&& node.n == 0 ==> forall|e: int|
            0 <= e < node.children@.len() ==> #[trigger] node.children@[e] is None
    }
}

/// Whether an entry took its result: its node's own, or the reply, whose priors were entered
/// and put in order on the first visit.
pub open spec fn is_fetched<S: Scalar>(
    before: Seq<Node<S>>,
    after: Seq<Node<S>>,
    item: NodeToProcess<S>,
    fetched: NodeToProcess<S>,
    reply: Option<Reply<S>>,
) -> bool {
    let i = item.node_idx as int;
    let node = before[i];
    &&& fetched == (NodeToProcess {
        eval: if item.nn_queried {
            reply->Some_0.eval
        } else {
            Evaluation { wl: node.wl, d: node.d, m: node.m }
        },
        ..item
    })
    &&& after == before.update(i, after[i])
    &&& after[i] == (Node { edges: after[i].edges, ..node })
    &&& (!item.nn_queried || node.n > 0) ==> after[i].edges == node.edges
    &&& item.nn_queried && node.n == 0 ==> {
        &&& after[i].edges@.to_multiset() == with_priors(
            node.edges@,
            reply->Some_0.policies@,
        ).to_multiset()
        &&& forall|a: int, b: int|
            0 <= a <= b < after[i].edges@.len() ==> after[i].edges@[a].p >= after[i].edges@[b].p
    }
}

/// Takes the result of one entry: that of a node which the network was not asked
/// for is its own; otherwise it is the reply. On the first visit the priors are
/// entered and the edges ordered by them.
pub fn fetch_single_node_result<S: Scalar>(
    tree: &mut NodeTree<S>,
    item: &mut NodeToProcess<S>,
    reply: &Option<Reply<S>>,
) -> (r: Result<(), EnginError>)
    requires
        old(tree).wf(),
        old(item).node_idx < old(tree).nodes().len(),
        reply matches Some(reply) ==> reply.fits(old(tree).nodes()[old(item).node_idx as int]),
    ensures
        final(tree).wf(),
        *final(tree) == (NodeTree { arena: final(tree).arena, ..*old(tree) }),
        r is Ok == (old(item).is_collision || !old(item).nn_queried || (old(item).eval_ticket is Some
            && reply is Some)),
        r matches Err(error) ==> error == (if old(item).eval_ticket is None {
            EnginError::Unsupported("evaluation result without a ticket")
        } else {
            EnginError::Unsupported("evaluation result without a computation")
        }),
        r is Err || old(item).is_collision ==> *final(item) == *old(item) && final(tree).nodes()
            == old(tree).nodes(),
        r is Ok && !old(item).is_collision ==> is_fetched(
            old(tree).nodes(),
            final(tree).nodes(),
            *old(item),
            *final(item),
            *reply,
        ),
{
    if item.is_collision {
        return Ok(());
    }
    let node_idx: usize = item.node_idx;
    let ghost before = tree.nodes();
    let ghost i = node_idx as int;
    if !item.nn_queried {
        let node: &Node<S> = tree.node(node_idx);
        item.eval = Evaluation { wl: node.wl(), d: node.d(), m: node.m() };
        assert(before =~= before.update(i, before[i]));
        return Ok(());
    }
    if item.eval_ticket.is_none() {
        return Err(EnginError::Unsupported("evaluation result without a ticket"));
    }
    match reply {
        None => Err(EnginError::Unsupported("evaluation result without a computation")),
        Some(reply) => {
            if tree.node(node_idx).n() == 0 {
                let count: usize = reply.policies.len();
                let mut e: usize = 0;
                while e < count
                    invariant
                        node_idx < before.len(),
                        i == node_idx,
                        before == old(tree).nodes(),
                        tree.nodes().len() == before.len(),
                        count == reply.policies@.len(),
                        count <= before[i].edges@.len(),
                        e <= count,
                        forall|k: int| 0 <= k < reply.policies@.len() ==> #[trigger] reply.policies@[k]
                            <= PRIOR_ONE_BITS,
                        tree.nodes() =~= before.update(i, tree.nodes()[i]),
                        tree.nodes()[i] == (Node { edges: tree.nodes()[i].edges, ..before[i] }),
                        tree.nodes()[i].edges@ =~= with_priors(
                            before[i].edges@,
                            reply.policies@.take(e as int),
                        ),
                        *tree == (NodeTree { arena: tree.arena, ..*old(tree) }),
                    decreases count - e,
                {
                    let ghost prior = tree.nodes()[i].edges@;
                    tree.arena.nodes[node_idx].edges[e].set_p(reply.policies[e]);
                    e += 1;
                    proof {
                        assert(reply.policies@.take(e as int) =~= reply.policies@.take(e - 1).push(
                            reply.policies@[e - 1],
                        ));
                    }
                }
                assert(reply.policies@.take(e as int) =~= reply.policies@);
                tree.arena.nodes[node_idx].sort_edges();
                proof {
                    assert(tree.nodes() =~= before.update(i, tree.nodes()[i]));
                    lemma_update_keeps_links(before, i, tree.nodes()[i]);
                }
            } else {
                assert(before =~= before.update(i, before[i]));
            }
            item.eval = reply.eval;
            Ok(())
        },
    }
}

/// An entry once it is known whether and how the network was asked for it.
pub open spec fn queried<S>(
    item: NodeToProcess<S>,
    query: Option<(u64, bool)>,
) -> NodeToProcess<S> {
    match query {
        Some((ticket, is_cache_hit)) => NodeToProcess {
            nn_queried: true,
            is_cache_hit,
            eval_ticket: Some(ticket),
            ..item
        },
        None => item,
    }
}

/// Finishes one entry of a round after the network was asked, if it was: with a ticket, and
/// with whether its cache held the answer. An entry whose result is at hand takes it now and
/// is complete. Returns whether it is.
pub fn finish_entry<S: Scalar>(
    tree: &mut NodeTree<S>,
    params: &SearchParams<S>,
    item: &mut NodeToProcess<S>,
    query: Option<(u64, bool)>,
    reply: &Option<Reply<S>>,
) -> (r: Result<bool, EnginError>)
    requires
        old(tree).wf(),
        old(item).node_idx < old(tree).nodes().len(),
        reply matches Some(reply) ==> reply.fits(old(tree).nodes()[old(item).node_idx as int]),
        old(item).is_collision ==> query is None,
    ensures
        final(tree).wf(),
        *final(tree) == (NodeTree { arena: final(tree).arena, ..*old(tree) }),
        ({
            let asked = queried(*old(item), query);
            let is_terminal = old(tree).nodes()[asked.node_idx as int].spec_is_terminal();
            let completes = !asked.is_collision && params.out_of_order_eval
                && asked.spec_can_eval_out_of_order(is_terminal);
            &&& r is Ok == (!completes || !asked.nn_queried || (asked.eval_ticket is Some
                && reply is Some))
            &&& (r matches Err(error) ==> error == (if asked.eval_ticket is None {
                EnginError::Unsupported("evaluation result without a ticket")
            } else {
                EnginError::Unsupported("evaluation result without a computation")
            }))
            &&& (r matches Ok(complete) ==> complete == completes)
            &&& !completes || r is Err ==> *final(item) == asked && final(tree).nodes() == old(
                tree).nodes()
            &&& completes && r is Ok ==> final(item).ooo_completed && is_fetched(
                old(tree).nodes(),
                final(tree).nodes(),
                NodeToProcess { ooo_completed: true, ..asked },
                *final(item),
                *reply,
            )
        }),
{
    match query {
        Some((ticket, is_cache_hit)) => {
            record_query(item, ticket, is_cache_hit);
        },
        None => {},
    }
    if !completes_out_of_order(params, item, tree.node(item.node_idx).is_terminal()) {
        return Ok(false);
    }
    match fetch_single_node_result(tree, item, reply) {
        Ok(()) => {
            item.ooo_completed = true;
            Ok(true)
        },
        Err(error) => Err(error),
    }
}

/// Edges with the given priors entered from the front.
pub open spec fn with_priors(edges: Seq<Edge>, policies: Seq<u32>) -> Seq<Edge> {
    Seq::new(
        edges.len(),
        |e: int|
            if e < policies.len() {
                Edge { mv: edges[e].mv, p: prior_code(policies[e]) }
            } else {
                edges[e]
            },
    )
}

/// Counts a worker that begins to wait for the backend.
pub fn begin_backend_wait(state: &mut WorkerSearchState)
    requires
        old(state).backend_waiting_counter < i32::MAX,
    ensures
        *final(state) == (WorkerSearchState {
            backend_waiting_counter: (old(state).backend_waiting_counter + 1) as i32,
            ..*old(state)
        }),
{
    state.backend_waiting_counter = state.backend_waiting_counter + 1;
}

/// Counts a worker that no longer waits for the backend.
pub fn end_backend_wait(state: &mut WorkerSearchState)
    requires
        old(state).backend_waiting_counter > i32::MIN,
    ensures
        *final(state) == (WorkerSearchState {
            backend_waiting_counter: (old(state).backend_waiting_counter - 1) as i32,
            ..*old(state)
        }),
{
    state.backend_waiting_counter = state.backend_waiting_counter - 1;
}

/// Whether a worker holds back because the search is faster than it may be: so many
/// playouts in so many milliseconds are above the limit per second. Without a limit, once
/// the search stops, and before any time has passed, none does.
pub fn exceeds_nps_limit<S: Scalar>(
    stop: bool,
    total_playouts: u64,
    elapsed_ms: i64,
    nps_limit: S,
) -> (r: bool)
    requires
        total_playouts <= i64::MAX,
    ensures
        r == (!stop && nps_limit.spec_above(S::spec_zero()) && elapsed_ms > 0 && S::spec_integer(
            total_playouts as i64,
        ).spec_times(S::spec_count(1000)).spec_over(S::spec_integer(elapsed_ms)).spec_above(
            nps_limit,
        )),
{
    if stop || !nps_limit.above(S::zero()) || elapsed_ms <= 0 {
        return false;
    }
    S::integer(total_playouts as i64).times(S::count(1000)).over(S::integer(elapsed_ms)).above(
        nps_limit,
    )
}

} // verus!
