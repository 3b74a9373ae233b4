//! Carrying the results of a batch back to the root.
use vstd::prelude::*;

use crate::classic::bounds::bounds_set;
use crate::classic::carry::{climb, serve_node, Backup, BackupStep, Carry};
use crate::classic::loads::{lemma_ancestor_transitive, load_at};
use crate::classic::node::{nudged, Node};
use crate::classic::params::SearchParams;
use crate::classic::tasks::{Evaluation, NodeToProcess};
use crate::classic::tree::{
    is_ancestor, lemma_ancestor_below, lemma_ancestor_stable, lemma_update_keeps_links,
    node_linked, solidified, well_linked, NodeTree,
};
use crate::exact::{
    is_even_rounding, is_unrounded, lemma_counts, lemma_quotient, lemma_scaling_keeps_sign, rounds_by,
};
use crate::position::Move;
use crate::scalar::Scalar;

verus! {

/// The counters that all workers of a search share.
#[derive(Debug)]
pub struct WorkerSearchState {
    pub stop: bool,
    /// How many further workers may gather at the same time.
    pub pending_searchers: i32,
    pub backend_waiting_counter: i32,
    pub thread_count: usize,
    /// Visits that collided, by node, and still count as under way.
    pub shared_collisions: Vec<(usize, u32)>,
    /// The best edge of the root so far.
    pub current_best_edge: Option<usize>,
    pub total_playouts: u64,
    pub total_batches: u64,
    pub network_evaluations: u64,
    pub cum_depth: u64,
    pub max_depth: u16,
}

impl WorkerSearchState {
    /// The state at the beginning of a search.
    pub open spec fn is_initial(self, stop: bool) -> bool {
        &&& self.stop == stop
        &&& self.pending_searchers == 1
        &&& self.backend_waiting_counter == 0
        &&& self.thread_count == 1
        &&& self.shared_collisions@.len() == 0
        &&& self.current_best_edge is None
        &&& self.total_playouts == 0
        &&& self.total_batches == 0
        &&& self.network_evaluations == 0
        &&& self.cum_depth == 0
        &&& self.max_depth == 0
    }

    /// The state at the beginning of a search.
    pub fn new(stop: bool) -> (r: Self)
        ensures
            r.is_initial(stop),
    {
        WorkerSearchState {
            stop,
            pending_searchers: 1,
            backend_waiting_counter: 0,
            thread_count: 1,
            shared_collisions: Vec::new(),
            current_best_edge: None,
            total_playouts: 0,
            total_batches: 0,
            network_evaluations: 0,
            cum_depth: 0,
            max_depth: 0,
        }
    }

    /// Sets how many workers may gather at the same time; negative limits count as
    /// none.
    pub fn set_max_concurrent_searchers(&mut self, limit: i32)
        ensures
            *final(self) == (WorkerSearchState {
                pending_searchers: if limit > 0 {
                    limit
                } else {
                    0
                },
                ..*old(self)
            }),
    {
        self.pending_searchers = if limit > 0 {
            limit
        } else {
            0
        };
    }
}

impl Default for WorkerSearchState {
    fn default() -> (r: Self)
        ensures
            r.is_initial(false),
    {
        WorkerSearchState::new(false)
    }
}

/// The part of a load that weighs on nodes from `head` downwards.
pub open spec fn load_from<S>(
    nodes: Seq<Node<S>>,
    head: int,
    x: int,
    target: int,
    weight: int,
    on_target: bool,
) -> int {
    if is_ancestor(nodes, head, x) {
        load_at(nodes, x, target, weight, on_target)
    } else {
        0
    }
}

/// `after` is `before` with other counts of visits under way.
pub open spec fn only_in_flight<S>(before: Seq<Node<S>>, after: Seq<Node<S>>) -> bool {
    &&& after.len() == before.len()
    &&& forall|j: int|
        0 <= j < before.len() ==> #[trigger] after[j] == (Node {
            n_in_flight: after[j].n_in_flight,
            ..before[j]
        })
}

/// `after` is `before` without visits that collided at a node: they weigh no longer on the
/// nodes above it, up to the head.
pub open spec fn taken_back<S: Scalar>(
    before: Seq<Node<S>>,
    after: Seq<Node<S>>,
    head: int,
    node: int,
    visits: int,
) -> bool {
    &&& only_in_flight(before, after)
    &&& forall|x: int|
        0 <= x < before.len() ==> (#[trigger] after[x]).n_in_flight == before[x].n_in_flight
            - load_from(before, head, x, node, visits, false)
}

/// The counters of a search once an entry is settled.
pub open spec fn counted_visit<S>(
    state: WorkerSearchState,
    item: NodeToProcess<S>,
    best_edge: Option<usize>,
) -> WorkerSearchState {
    WorkerSearchState {
        total_playouts: (state.total_playouts + item.multivisit) as u64,
        network_evaluations: if item.nn_queried && !item.is_cache_hit {
            (state.network_evaluations + 1) as u64
        } else {
            state.network_evaluations
        },
        cum_depth: (state.cum_depth + item.depth * item.multivisit) as u64,
        max_depth: if item.depth > state.max_depth {
            item.depth
        } else {
            state.max_depth
        },
        current_best_edge: best_edge,
        ..state
    }
}

/// Of two nodes that both lie above a third, one lies above the other.
pub proof fn lemma_chain<S>(nodes: Seq<Node<S>>, a: int, b: int, below: int)
    requires
        is_ancestor(nodes, a, below),
        is_ancestor(nodes, b, below),
    ensures
        is_ancestor(nodes, a, b) || is_ancestor(nodes, b, a),
    decreases below,
{
    if a != below && b != below {
        lemma_chain(nodes, a, b, nodes[below].parent->Some_0 as int);
    }
}

/// Takes back visits that collided at a node: they weigh on the nodes above it, up
/// to the head.
pub fn cancel_collision<S: Scalar>(
    tree: &mut NodeTree<S>,
    node_idx: usize,
    head: usize,
    multivisit: u32,
)
    requires
        old(tree).wf(),
        node_idx < old(tree).nodes().len(),
        is_ancestor(old(tree).nodes(), head as int, node_idx as int),
        forall|x: int|
            0 <= x < old(tree).nodes().len() ==> (#[trigger] old(tree).nodes()[x]).n_in_flight
                >= load_from(
                old(tree).nodes(),
                head as int,
                x,
                node_idx as int,
                multivisit as int,
                false,
            ),
    ensures
        final(tree).wf(),
        *final(tree) == (NodeTree { arena: final(tree).arena, ..*old(tree) }),
        only_in_flight(old(tree).nodes(), final(tree).nodes()),
        forall|x: int|
            0 <= x < old(tree).nodes().len() ==> (#[trigger] final(tree).nodes()[x]).n_in_flight == old(tree).nodes()[x].n_in_flight - load_from(
                old(tree).nodes(),
                head as int,
                x,
                node_idx as int,
                multivisit as int,
                false,
            ),
{
    let ghost before = tree.nodes();
    let ghost target = node_idx as int;
    let ghost h = head as int;
    let mut at: usize = node_idx;
    proof {
        assert(is_ancestor(before, target, target));
        assert forall|x: int| 0 <= x < before.len() implies (#[trigger] tree.nodes()[x]).n_in_flight
            == before[x].n_in_flight - done_load(before, x, target, target, multivisit as int) by {}
    }
    while at != head
        invariant
            tree.wf(),
            *tree == (NodeTree { arena: tree.arena, ..*old(tree) }),
            before == old(tree).nodes(),
            target == node_idx,
            h == head,
            well_linked(before),
            0 <= target < before.len(),
            at < before.len(),
            is_ancestor(before, h, at as int),
            is_ancestor(before, at as int, target),
            only_in_flight(before, tree.nodes()),
            forall|x: int|
                0 <= x < before.len() ==> (#[trigger] before[x]).n_in_flight >= load_from(
                    before,
                    h,
                    x,
                    target,
                    multivisit as int,
                    false,
                ),
            forall|x: int|
                0 <= x < before.len() ==> (#[trigger] tree.nodes()[x]).n_in_flight == before[x].n_in_flight
                    - done_load(before, x, at as int, target, multivisit as int),
        decreases at,
    {
        let ghost middle = tree.nodes();
        let ghost here = at as int;
        proof {
            assert(node_linked(before, here));
            assert(middle[here] == (Node { n_in_flight: middle[here].n_in_flight, ..before[here] }));
        }
        let parent: usize = match tree.node(at).parent() {
            Some(p) => p,
            None => 0,
        };
        let ghost p = parent as int;
        proof {
            assert(before[here].parent == Some(parent));
            assert(is_ancestor(before, h, p));
            assert(is_ancestor(before, p, p));
            assert(is_ancestor(before, p, here));
            lemma_ancestor_transitive(before, p, here, target);
            lemma_ancestor_below(before, here, target);
            assert(before[p].n_in_flight >= load_from(
                before,
                h,
                p,
                target,
                multivisit as int,
                false,
            ));
            assert(middle[p].n_in_flight == before[p].n_in_flight - done_load(
                before,
                p,
                here,
                target,
                multivisit as int,
            ));
        }
        tree.arena.nodes[parent].cancel_score_update(multivisit);
        proof {
            assert(tree.nodes() =~= middle.update(p, tree.nodes()[p]));
            lemma_update_keeps_links(middle, p, tree.nodes()[p]);
            assert forall|x: int| 0 <= x < before.len() implies (#[trigger] tree.nodes()[x]).n_in_flight
                == before[x].n_in_flight - done_load(before, x, p, target, multivisit as int) by {
                assert(middle[x].n_in_flight == before[x].n_in_flight - done_load(
                    before,
                    x,
                    here,
                    target,
                    multivisit as int,
                ));
                if is_ancestor(before, x, here) && x != here {
                    assert(is_ancestor(before, x, p));
                }
                if is_ancestor(before, x, p) {
                    assert(is_ancestor(before, x, here));
                    lemma_ancestor_below(before, x, p);
                }
            }
        }
        at = parent;
    }
    proof {
        assert forall|x: int| 0 <= x < before.len() implies (#[trigger] tree.nodes()[x]).n_in_flight
            == before[x].n_in_flight - load_from(before, h, x, target, multivisit as int, false) by {
            assert(is_ancestor(before, h, h));
            if is_ancestor(before, x, target) {
                lemma_chain(before, x, h, target);
                if is_ancestor(before, x, h) && is_ancestor(before, h, x) {
                    lemma_ancestor_below(before, x, h);
                    lemma_ancestor_below(before, h, x);
                }
            }
        }
    }
}

/// What has been taken back when the walk up from `target` stands at `at`: the load
/// on the nodes from `at` down, without `target` itself.
spec fn done_load<S>(nodes: Seq<Node<S>>, x: int, at: int, target: int, weight: int) -> int {
    if is_ancestor(nodes, x, target) && x != target && (x == at || !is_ancestor(nodes, x, at)) {
        weight
    } else {
        0
    }
}

/// Lets further visits collide at a node.
pub fn extend_collision<S: Scalar>(
    tree: &mut NodeTree<S>,
    node_idx: usize,
    head: usize,
    extra: u32,
)
    requires
        old(tree).wf(),
        node_idx < old(tree).nodes().len(),
        is_ancestor(old(tree).nodes(), head as int, node_idx as int),
        forall|x: int|
            0 <= x < old(tree).nodes().len() ==> (#[trigger] old(tree).nodes()[x]).n_in_flight
                + load_from(
                old(tree).nodes(),
                head as int,
                x,
                node_idx as int,
                extra as int,
                false,
            ) <= u32::MAX,
    ensures
        final(tree).wf(),
        *final(tree) == (NodeTree { arena: final(tree).arena, ..*old(tree) }),
        only_in_flight(old(tree).nodes(), final(tree).nodes()),
        forall|x: int|
            0 <= x < old(tree).nodes().len() ==> (#[trigger] final(tree).nodes()[x]).n_in_flight == old(tree).nodes()[x].n_in_flight + load_from(
                old(tree).nodes(),
                head as int,
                x,
                node_idx as int,
                extra as int,
                false,
            ),
{
    let ghost before = tree.nodes();
    let ghost target = node_idx as int;
    let ghost h = head as int;
    let mut at: usize = node_idx;
    proof {
        assert(is_ancestor(before, target, target));
        assert forall|x: int| 0 <= x < before.len() implies (#[trigger] tree.nodes()[x]).n_in_flight
            == before[x].n_in_flight + done_load(before, x, target, target, extra as int) by {}
    }
    while at != head
        invariant
            tree.wf(),
            *tree == (NodeTree { arena: tree.arena, ..*old(tree) }),
            before == old(tree).nodes(),
            target == node_idx,
            h == head,
            well_linked(before),
            0 <= target < before.len(),
            at < before.len(),
            is_ancestor(before, h, at as int),
            is_ancestor(before, at as int, target),
            only_in_flight(before, tree.nodes()),
            forall|x: int|
                0 <= x < before.len() ==> (#[trigger] before[x]).n_in_flight + load_from(
                    before,
                    h,
                    x,
                    target,
                    extra as int,
                    false,
                ) <= u32::MAX,
            forall|x: int|
                0 <= x < before.len() ==> (#[trigger] tree.nodes()[x]).n_in_flight == before[x].n_in_flight
                    + done_load(before, x, at as int, target, extra as int),
        decreases at,
    {
        let ghost middle = tree.nodes();
        let ghost here = at as int;
        proof {
            assert(node_linked(before, here));
            assert(middle[here] == (Node { n_in_flight: middle[here].n_in_flight, ..before[here] }));
        }
        let parent: usize = match tree.node(at).parent() {
            Some(p) => p,
            None => 0,
        };
        let ghost p = parent as int;
        proof {
            assert(before[here].parent == Some(parent));
            assert(is_ancestor(before, h, p));
            assert(is_ancestor(before, p, p));
            assert(is_ancestor(before, p, here));
            lemma_ancestor_transitive(before, p, here, target);
            lemma_ancestor_below(before, here, target);
            assert(before[p].n_in_flight + load_from(
                before,
                h,
                p,
                target,
                extra as int,
                false,
            ) <= u32::MAX);
            assert(middle[p].n_in_flight == before[p].n_in_flight + done_load(
                before,
                p,
                here,
                target,
                extra as int,
            ));
        }
        tree.arena.nodes[parent].increment_n_in_flight(extra);
        proof {
            assert(tree.nodes() =~= middle.update(p, tree.nodes()[p]));
            lemma_update_keeps_links(middle, p, tree.nodes()[p]);
            assert forall|x: int| 0 <= x < before.len() implies (#[trigger] tree.nodes()[x]).n_in_flight
                == before[x].n_in_flight + done_load(before, x, p, target, extra as int) by {
                assert(middle[x].n_in_flight == before[x].n_in_flight + done_load(
                    before,
                    x,
                    here,
                    target,
                    extra as int,
                ));
                if is_ancestor(before, x, here) && x != here {
                    assert(is_ancestor(before, x, p));
                }
                if is_ancestor(before, x, p) {
                    assert(is_ancestor(before, x, here));
                    lemma_ancestor_below(before, x, p);
                }
            }
        }
        at = parent;
    }
    proof {
        assert forall|x: int| 0 <= x < before.len() implies (#[trigger] tree.nodes()[x]).n_in_flight
            == before[x].n_in_flight + load_from(before, h, x, target, extra as int, false) by {
            assert(is_ancestor(before, h, h));
            if is_ancestor(before, x, target) {
                lemma_chain(before, x, h, target);
                if is_ancestor(before, x, h) && is_ancestor(before, h, x) {
                    lemma_ancestor_below(before, x, h);
                    lemma_ancestor_below(before, h, x);
                }
            }
        }
    }
}

/// What the first `k` shared collisions weigh on node `x`, from `head` downwards.
pub open spec fn collisions_load<S>(
    nodes: Seq<Node<S>>,
    head: int,
    collisions: Seq<(usize, u32)>,
    k: int,
    x: int,
) -> int
    decreases k,
{
    if k <= 0 {
        0
    } else {
        collisions_load(nodes, head, collisions, k - 1, x) + load_from(
            nodes,
            head,
            x,
            collisions[k - 1].0 as int,
            collisions[k - 1].1 as int,
            false,
        )
    }
}

proof fn lemma_collisions_load_grows<S>(
    nodes: Seq<Node<S>>,
    head: int,
    collisions: Seq<(usize, u32)>,
    i: int,
    j: int,
    x: int,
)
    requires
        i <= j,
    ensures
        collisions_load(nodes, head, collisions, i, x) <= collisions_load(
            nodes,
            head,
            collisions,
            j,
            x,
        ),
    decreases j - i,
{
    if i < j {
        lemma_collisions_load_grows(nodes, head, collisions, i, j - 1, x);
    }
}

proof fn lemma_load_from_stable<S>(
    before: Seq<Node<S>>,
    after: Seq<Node<S>>,
    head: int,
    x: int,
    target: int,
    weight: int,
    on_target: bool,
)
    requires
        0 <= x < before.len(),
        0 <= target < before.len(),
        only_in_flight(before, after),
    ensures
        load_from(before, head, x, target, weight, on_target) == load_from(
            after,
            head,
            x,
            target,
            weight,
            on_target,
        ),
{
    assert forall|j: int| 0 <= j < before.len() implies (#[trigger] before[j]).parent
        == after[j].parent by {
        assert(after[j] == (Node { n_in_flight: after[j].n_in_flight, ..before[j] }));
    }
    lemma_ancestor_stable(before, after, head, x);
    lemma_ancestor_stable(before, after, x, target);
}

/// Takes back all shared collisions.
pub fn cancel_shared_collisions<S: Scalar>(
    state: &mut WorkerSearchState,
    tree: &mut NodeTree<S>,
    head: usize,
)
    requires
        old(tree).wf(),
        forall|k: int|
            0 <= k < old(state).shared_collisions@.len() ==> {
                &&& (#[trigger] old(state).shared_collisions@[k]).0 < old(tree).nodes().len()
                &&& is_ancestor(
                    old(tree).nodes(),
                    head as int,
                    old(state).shared_collisions@[k].0 as int,
                )
            },
        forall|x: int|
            0 <= x < old(tree).nodes().len() ==> (#[trigger] old(tree).nodes()[x]).n_in_flight
                >= collisions_load(
                old(tree).nodes(),
                head as int,
                old(state).shared_collisions@,
                old(state).shared_collisions@.len() as int,
                x,
            ),
    ensures
        final(tree).wf(),
        *final(tree) == (NodeTree { arena: final(tree).arena, ..*old(tree) }),
        only_in_flight(old(tree).nodes(), final(tree).nodes()),
        forall|x: int|
            0 <= x < old(tree).nodes().len() ==> (#[trigger] final(tree).nodes()[x]).n_in_flight == old(tree).nodes()[x].n_in_flight - collisions_load(
                old(tree).nodes(),
                head as int,
                old(state).shared_collisions@,
                old(state).shared_collisions@.len() as int,
                x,
            ),
        final(state).shared_collisions@.len() == 0,
        *final(state) == (WorkerSearchState {
            shared_collisions: final(state).shared_collisions,
            ..*old(state)
        }),
{
    let ghost before = tree.nodes();
    let ghost h = head as int;
    let ghost all = state.shared_collisions@;
    let ghost count = all.len() as int;
    let mut k: usize = 0;
    while k < state.shared_collisions.len()
        invariant
            *state == *old(state),
            before == old(tree).nodes(),
            all == state.shared_collisions@,
            count == all.len(),
            h == head,
            tree.wf(),
            *tree == (NodeTree { arena: tree.arena, ..*old(tree) }),
            k <= count,
            only_in_flight(before, tree.nodes()),
            forall|i: int|
                0 <= i < count ==> {
                    &&& (#[trigger] all[i]).0 < before.len()
                    &&& is_ancestor(before, h, all[i].0 as int)
                },
            forall|x: int|
                0 <= x < before.len() ==> (#[trigger] before[x]).n_in_flight >= collisions_load(
                    before,
                    h,
                    all,
                    count,
                    x,
                ),
            forall|x: int|
                0 <= x < before.len() ==> (#[trigger] tree.nodes()[x]).n_in_flight == before[x].n_in_flight
                    - collisions_load(before, h, all, k as int, x),
        decreases count - k,
    {
        let (node_idx, multivisit) = state.shared_collisions[k];
        let ghost middle = tree.nodes();
        proof {
            assert(all[k as int].0 < before.len());
            assert forall|j: int| 0 <= j < before.len() implies (#[trigger] before[j]).parent
                == middle[j].parent by {
                assert(middle[j] == (Node { n_in_flight: middle[j].n_in_flight, ..before[j] }));
            }
            lemma_ancestor_stable(before, middle, h, node_idx as int);
            assert forall|x: int| 0 <= x < middle.len() implies (#[trigger] middle[x]).n_in_flight
                >= load_from(middle, h, x, node_idx as int, multivisit as int, false) by {
                lemma_load_from_stable(
                    before,
                    middle,
                    h,
                    x,
                    node_idx as int,
                    multivisit as int,
                    false,
                );
                lemma_collisions_load_grows(before, h, all, k + 1, count, x);
                assert(before[x].n_in_flight >= collisions_load(before, h, all, count, x));
            }
        }
        cancel_collision(tree, node_idx, head, multivisit);
        proof {
            assert forall|x: int| 0 <= x < before.len() implies (#[trigger] tree.nodes()[x]).n_in_flight
                == before[x].n_in_flight - collisions_load(before, h, all, k + 1, x) by {
                lemma_load_from_stable(
                    before,
                    middle,
                    h,
                    x,
                    node_idx as int,
                    multivisit as int,
                    false,
                );
                assert(middle[x].n_in_flight == before[x].n_in_flight - collisions_load(
                    before,
                    h,
                    all,
                    k as int,
                    x,
                ));
            }
            assert forall|j: int| 0 <= j < before.len() implies #[trigger] tree.nodes()[j] == (Node {
                n_in_flight: tree.nodes()[j].n_in_flight,
                ..before[j]
            }) by {
                assert(middle[j] == (Node { n_in_flight: middle[j].n_in_flight, ..before[j] }));
            }
        }
        k += 1;
    }
    state.shared_collisions = Vec::new();
}

/// The collisions among the first `k` entries of a batch.
pub open spec fn collisions_of<S>(minibatch: Seq<NodeToProcess<S>>, k: int) -> Seq<(usize, u32)>
    decreases k,
{
    if k <= 0 {
        Seq::empty()
    } else if minibatch[k - 1].is_collision {
        collisions_of(minibatch, k - 1).push(
            (minibatch[k - 1].node_idx, minibatch[k - 1].multivisit),
        )
    } else {
        collisions_of(minibatch, k - 1)
    }
}

/// Shares the collisions of a batch with the other workers.
pub fn collect_collisions<S: Scalar>(
    state: &mut WorkerSearchState,
    minibatch: &Vec<NodeToProcess<S>>,
)
    ensures
        final(state).shared_collisions@ == old(state).shared_collisions@ + collisions_of(
            minibatch@,
            minibatch@.len() as int,
        ),
        *final(state) == (WorkerSearchState {
            shared_collisions: final(state).shared_collisions,
            ..*old(state)
        }),
{
    let mut k: usize = 0;
    assert(old(state).shared_collisions@ + collisions_of(minibatch@, 0) =~= old(state).shared_collisions@);
    while k < minibatch.len()
        invariant
            k <= minibatch@.len(),
            state.shared_collisions@ == old(state).shared_collisions@ + collisions_of(
                minibatch@,
                k as int,
            ),
            *state == (WorkerSearchState {
                shared_collisions: state.shared_collisions,
                ..*old(state)
            }),
        decreases minibatch@.len() - k,
    {
        if minibatch[k].is_collision {
            state.shared_collisions.push((minibatch[k].node_idx, minibatch[k].multivisit));
        }
        k += 1;
        assert(state.shared_collisions@ =~= old(state).shared_collisions@ + collisions_of(
            minibatch@,
            k as int,
        ));
    }
}

/// Letting visits collide and taking them back leaves every node as it was.
pub proof fn law_cancel_undoes_collision<S: Scalar>(
    before: Seq<Node<S>>,
    during: Seq<Node<S>>,
    after: Seq<Node<S>>,
    head: int,
    target: int,
    weight: int,
)
    requires
        0 <= target < before.len(),
        only_in_flight(before, during),
        only_in_flight(during, after),
        forall|x: int|
            0 <= x < before.len() ==> (#[trigger] during[x]).n_in_flight == before[x].n_in_flight
                + load_from(before, head, x, target, weight, false),
        forall|x: int|
            0 <= x < before.len() ==> (#[trigger] after[x]).n_in_flight == during[x].n_in_flight
                - load_from(during, head, x, target, weight, false),
    ensures
        after == before,
{
    assert forall|x: int| 0 <= x < before.len() implies #[trigger] after[x] == before[x] by {
        lemma_load_from_stable(before, during, head, x, target, weight, false);
        assert(during[x] == (Node { n_in_flight: during[x].n_in_flight, ..before[x] }));
        assert(after[x] == (Node { n_in_flight: after[x].n_in_flight, ..during[x] }));
    }
    assert(after =~= before);
}


/// Every node on the way from `c` up to `head` is found behind an edge of its
/// parent.
pub open spec fn attached_up_to<S>(nodes: Seq<Node<S>>, head: int, c: int) -> bool
    decreases c,
{
    c == head || match nodes[c].parent {
        Some(p) => p < c && nodes[c].edge_index < nodes[p as int].edges@.len() && attached_up_to(
            nodes,
            head,
            p as int,
        ),
        None => false,
    }
}

/// What a result counts for at a node: a terminal node has its own.
pub open spec fn result_at<S: Scalar>(node: Node<S>, eval: Evaluation<S>) -> Evaluation<S> {
    if node.spec_is_terminal() {
        Evaluation { wl: node.wl, d: node.d, m: node.m }
    } else {
        eval
    }
}

/// A result one ply further up: the other player's value, and a longer line.
pub open spec fn one_ply_up<S: Scalar>(eval: Evaluation<S>) -> Evaluation<S> {
    Evaluation {
        wl: eval.wl.spec_negated(),
        d: eval.d,
        m: eval.m.spec_plus(S::spec_one()),
    }
}

/// The result that reaches node `target` when `eval` is carried up from node `at`.
pub open spec fn carried_result<S: Scalar>(
    nodes: Seq<Node<S>>,
    at: int,
    eval: Evaluation<S>,
    target: int,
) -> Evaluation<S>
    decreases at,
{
    if at == target {
        result_at(nodes[at], eval)
    } else {
        match nodes[at].parent {
            Some(p) => if p < at {
                carried_result(
                    nodes,
                    p as int,
                    one_ply_up(result_at(nodes[at], eval)),
                    target,
                )
            } else {
                result_at(nodes[at], eval)
            },
            None => result_at(nodes[at], eval),
        }
    }
}

/// `b` stands where `a` stood, with the same moves and at least the same children.
pub open spec fn place_kept<S: Scalar>(a: Node<S>, b: Node<S>) -> bool {
    &&& b.parent == a.parent
    &&& b.edge_index == a.edge_index
    &&& b.edges@.len() == a.edges@.len()
    &&& forall|e: int| 0 <= e < a.edges@.len() ==> (#[trigger] b.edges@[e]).mv == a.edges@[e].mv
    &&& b.children@.len() == a.children@.len()
    &&& forall|e: int|
        0 <= e < a.children@.len() && #[trigger] a.children@[e] is Some ==> b.children@[e]
            == a.children@[e]
}

/// Two nodes have the same statistics, bounds and edges.
pub open spec fn same_stats<S: Scalar>(a: Node<S>, b: Node<S>) -> bool {
    &&& a.wl == b.wl
    &&& a.d == b.d
    &&& a.m == b.m
    &&& a.n == b.n
    &&& a.n_in_flight == b.n_in_flight
    &&& a.terminal == b.terminal
    &&& a.lower_bound == b.lower_bound
    &&& a.upper_bound == b.upper_bound
    &&& a.edges@ == b.edges@
}

/// Whether node `x` lies on the way from `leaf` up to `head`.
pub open spec fn on_path<S>(nodes: Seq<Node<S>>, head: int, leaf: int, x: int) -> bool {
    is_ancestor(nodes, head, x) && is_ancestor(nodes, x, leaf)
}

proof fn lemma_attached_is_below<S>(nodes: Seq<Node<S>>, head: int, c: int)
    requires
        attached_up_to(nodes, head, c),
    ensures
        is_ancestor(nodes, head, c),
    decreases c,
{
    if c != head {
        lemma_attached_is_below(nodes, head, nodes[c].parent->Some_0 as int);
    }
}

proof fn lemma_attached_stable<S: Scalar>(
    before: Seq<Node<S>>,
    after: Seq<Node<S>>,
    head: int,
    c: int,
)
    requires
        0 <= c < before.len() <= after.len(),
        forall|j: int| 0 <= j < before.len() ==> place_kept(before[j], #[trigger] after[j]),
        attached_up_to(before, head, c),
    ensures
        attached_up_to(after, head, c),
    decreases c,
{
    if c != head {
        let p = before[c].parent->Some_0 as int;
        assert(place_kept(before[c], after[c]));
        assert(place_kept(before[p], after[p]));
        lemma_attached_stable(before, after, head, p);
    }
}

/// Whether a result may prove nodes above it: a terminal node that is visited for
/// the first time, where proofs are wanted.
pub open spec fn may_prove<S: Scalar>(params: SearchParams<S>, leaf: Node<S>) -> bool {
    params.sticky_endgames && leaf.spec_is_terminal() && leaf.n == 0
}

/// Whether node `x` has been served when the walk up from `leaf` has come to `at`.
spec fn is_served<S>(nodes: Seq<Node<S>>, leaf: int, at: int, x: int) -> bool {
    is_ancestor(nodes, x, leaf) && !is_ancestor(nodes, x, at)
}

/// What holds of the nodes while the result of `leaf` is carried up and the walk
/// has come to `at`; with `including`, `at` has been served too.
#[verifier::opaque]
spec fn carrying<S: Scalar>(
    before: Seq<Node<S>>,
    nodes: Seq<Node<S>>,
    leaf: int,
    at: int,
    including: bool,
    multivisit: int,
) -> bool {
    &&& before.len() <= nodes.len()
    &&& forall|j: int| 0 <= j < before.len() ==> place_kept(before[j], #[trigger] nodes[j])
    &&& forall|j: int|
        0 <= j < before.len() ==> (#[trigger] nodes[j]).n == before[j].n + (if is_served(
            before,
            leaf,
            at,
            j,
        ) || (including && j == at) {
            multivisit
        } else {
            0
        }) && nodes[j].n_in_flight == before[j].n_in_flight - (if is_served(before, leaf, at, j)
            || (including && j == at) {
            multivisit
        } else {
            0
        })
    &&& forall|j: int|
        before.len() <= j < nodes.len() ==> (#[trigger] nodes[j]).n == 0 && nodes[j].n_in_flight
            == 0
}

/// What holds besides where nothing can be proven: the nodes served have the
/// averages that the carried result gives them, the others are untouched.
#[verifier::opaque]
spec fn carrying_plainly<S: Scalar>(
    before: Seq<Node<S>>,
    nodes: Seq<Node<S>>,
    leaf: int,
    at: int,
    including: bool,
    eval: Evaluation<S>,
    multivisit: u32,
) -> bool {
    forall|j: int|
        0 <= j < before.len() ==> if is_served(before, leaf, at, j) || (including && j == at) {
            let result = carried_result(before, leaf, eval, j);
            same_stats(
                #[trigger] nodes[j],
                before[j].finalized(result.wl, result.d, result.m, multivisit),
            )
        } else {
            same_stats(nodes[j], before[j])
        }
}

/// Carries the result of one entry of a batch up to the head of the tree.
///
/// On every node of the way the visits of the entry complete. Where the result
/// cannot prove anything, each of these nodes takes the carried result into its
/// averages, and no other node changes its statistics. A first visit to a terminal
/// node may prove nodes above it, but never the head. What happens at each node on the
/// way is said by `Backup`.
pub fn do_backup_update_single_node<S: Scalar>(
    tree: &mut NodeTree<S>,
    state: &mut WorkerSearchState,
    params: &SearchParams<S>,
    item: &NodeToProcess<S>,
    root_is_black: bool,
    root_move_filter: &Vec<Move>,
)
    requires
        old(tree).wf(),
        old(tree).current_head is Some,
        item.node_idx < old(tree).nodes().len(),
        old(tree).nodes().len() + 256 * (item.node_idx + 1) < usize::MAX,
        attached_up_to(old(tree).nodes(), old(tree).head(), item.node_idx as int),
        forall|x: int|
            0 <= x < old(tree).nodes().len() && on_path(
                old(tree).nodes(),
                old(tree).head(),
                item.node_idx as int,
                x,
            ) ==> (#[trigger] old(tree).nodes()[x]).n + item.multivisit <= u32::MAX && old(tree).nodes()[x].n_in_flight >= item.multivisit,
        old(state).total_playouts + item.multivisit <= u64::MAX,
        old(state).network_evaluations < u64::MAX,
        old(state).cum_depth + item.depth * item.multivisit <= u64::MAX,
    ensures
        final(tree).wf(),
        *final(tree) == (NodeTree { arena: final(tree).arena, ..*old(tree) }),
        old(tree).nodes().len() <= final(tree).nodes().len() <= old(tree).nodes().len() + 256 * (
        item.node_idx + 1),
        forall|x: int|
            0 <= x < old(tree).nodes().len() ==> place_kept(
                old(tree).nodes()[x],
                #[trigger] final(tree).nodes()[x],
            ),
        forall|x: int|
            0 <= x < old(tree).nodes().len() ==> {
                let visits = if on_path(
                    old(tree).nodes(),
                    old(tree).head(),
                    item.node_idx as int,
                    x,
                ) {
                    item.multivisit as int
                } else {
                    0
                };
                &&& (#[trigger] final(tree).nodes()[x]).n == old(tree).nodes()[x].n + visits
                &&& final(tree).nodes()[x].n_in_flight == old(tree).nodes()[x].n_in_flight - visits
            },
        forall|x: int|
            old(tree).nodes().len() <= x < final(tree).nodes().len() ==> (
            #[trigger] final(tree).nodes()[x]).n == 0 && final(tree).nodes()[x].n_in_flight == 0,
        !may_prove(*params, old(tree).nodes()[item.node_idx as int]) ==> forall|x: int|
            0 <= x < old(tree).nodes().len() ==> if on_path(
                old(tree).nodes(),
                old(tree).head(),
                item.node_idx as int,
                x,
            ) {
                let result = carried_result(
                    old(tree).nodes(),
                    item.node_idx as int,
                    item.eval,
                    x,
                );
                same_stats(
                    #[trigger] final(tree).nodes()[x],
                    old(tree).nodes()[x].finalized(result.wl, result.d, result.m, item.multivisit),
                )
            } else {
                same_stats(final(tree).nodes()[x], old(tree).nodes()[x])
            },
        final(tree).nodes()[final(tree).head()].terminal == old(tree).nodes()[old(tree).head()].terminal,
        final(state).current_best_edge == old(state).current_best_edge || (final(state).current_best_edge matches Some(e) ==> e < final(tree).nodes()[final(tree).head()].edges@.len()),
        (Backup {
            params: *params,
            head: old(tree).head() as usize,
            root_is_black,
            filter: root_move_filter@,
            multivisit: item.multivisit,
        }).is_carried_up(
            *old(tree),
            *item,
            old(state).current_best_edge,
            *final(tree),
            final(state).current_best_edge,
        ),
        *final(state) == counted_visit(*old(state), *item, final(state).current_best_edge),
{
    let ghost before = tree.nodes();
    let ghost leaf = item.node_idx as int;
    let ghost h = tree.head();
    let ghost plain = !may_prove(*params, before[leaf]);
    let head: usize = tree.current_head();
    let multivisit: u32 = item.multivisit;
    let ghost backup = Backup {
        params: *params,
        head,
        root_is_black,
        filter: root_move_filter@,
        multivisit,
    };
    let mut carry: Carry<S> = Carry {
        at: item.node_idx,
        eval: item.eval,
        proving: params.sticky_endgames && tree.node(item.node_idx).is_terminal() && tree.node(
            item.node_idx,
        ).n() == 0,
        n_to_fix: 0,
        v_delta: S::zero(),
        d_delta: S::zero(),
        m_delta: S::zero(),
        best_edge: state.current_best_edge,
    };
    let ghost mut steps: Seq<BackupStep<S>> = Seq::empty();
    let ghost mut last: BackupStep<S> = arbitrary();
    let mut done: bool = false;
    proof {
        lemma_attached_is_below(before, h, leaf);
        assert(is_ancestor(before, leaf, leaf));
        lemma_carrying_begins(before, leaf, item.eval, multivisit);
        backup.lemma_walk_begins(*tree, *item, state.current_best_edge);
    }
    while !done
        invariant
            tree.wf(),
            *tree == (NodeTree { arena: tree.arena, ..*old(tree) }),
            before == old(tree).nodes(),
            well_linked(before),
            0 <= leaf < before.len(),
            leaf == item.node_idx,
            h == head,
            old(tree).current_head == Some(head),
            multivisit == item.multivisit,
            backup == (Backup {
                params: *params,
                head,
                root_is_black,
                filter: root_move_filter@,
                multivisit,
            }),
            carry.at < before.len(),
            h < before.len(),
            before.len() + 256 * (leaf + 1) < usize::MAX,
            tree.nodes().len() <= before.len() + 256 * (leaf - carry.at + if done {
                1int
            } else {
                0
            }),
            is_ancestor(before, carry.at as int, leaf),
            attached_up_to(before, h, carry.at as int),
            forall|x: int|
                0 <= x < before.len() && on_path(before, h, leaf, x) ==> (#[trigger] before[x]).n
                    + multivisit <= u32::MAX && before[x].n_in_flight >= multivisit,
            carrying(before, tree.nodes(), leaf, carry.at as int, done, multivisit as int),
            done ==> carry.at == head,
            tree.nodes()[h].terminal == before[h].terminal,
            plain == !may_prove(*params, before[leaf]),
            plain ==> !carry.proving && carry.n_to_fix == 0,
            plain ==> carrying_plainly(
                before,
                tree.nodes(),
                leaf,
                carry.at as int,
                done,
                item.eval,
                multivisit,
            ),
            plain && !done ==> forall|x: int|
                is_ancestor(before, x, carry.at as int) ==> #[trigger] carried_result(
                    before,
                    carry.at as int,
                    carry.eval,
                    x,
                ) == carried_result(before, leaf, item.eval, x),
            carry.best_edge == old(state).current_best_edge || (carry.best_edge matches Some(e)
                ==> e < before[h].edges@.len()),
            *state == *old(state),
            !done ==> backup.has_come(
                *old(tree),
                *item,
                old(state).current_best_edge,
                steps,
                *tree,
                carry,
            ),
            done ==> {
                &&& backup.has_come(
                    *old(tree),
                    *item,
                    old(state).current_best_edge,
                    steps,
                    last.start,
                    last.carry,
                )
                &&& last.carry.at == head
                &&& backup.is_serving(last)
                &&& last.solid == *tree
                &&& last.best_edge == carry.best_edge
            },
        decreases carry.at + (if done { 0int } else { 1 }),
    {
        let ghost start = *tree;
        let ghost brought = carry;
        let ghost a = carry.at as int;
        proof {
            lemma_attached_is_below(before, h, a);
            assert(is_ancestor(before, a, a));
            assert(on_path(before, h, leaf, a));
            assert(before[a].n + multivisit <= u32::MAX);
            lemma_carrying_at(before, start.nodes(), leaf, a, false, item.eval, multivisit, plain, a);
            lemma_carrying_at(before, start.nodes(), leaf, a, false, item.eval, multivisit, plain, h);
            lemma_ancestor_below(before, a, leaf);
        }
        let (counted, best_edge) = serve_node(
            tree,
            params,
            &carry,
            head,
            root_is_black,
            root_move_filter,
            multivisit,
            Ghost(backup),
        );
        let ghost solid = *tree;
        let ghost step = BackupStep { start, carry: brought, solid, best_edge };
        proof {
            lemma_node_served(
                before,
                start.nodes(),
                solid.nodes(),
                leaf,
                item.eval,
                plain,
                backup,
                brought,
            );
            lemma_carrying_at(before, solid.nodes(), leaf, a, true, item.eval, multivisit, plain, h);
            lemma_carrying_at(before, solid.nodes(), leaf, a, true, item.eval, multivisit, plain, a);
        }
        if carry.at == head {
            done = true;
            carry.best_edge = best_edge;
            proof {
                last = step;
            }
        } else {
            proof {
                assert(before[a].parent is Some);
            }
            let parent: usize = match tree.node(carry.at).parent() {
                Some(p) => p,
                None => 0,
            };
            let ghost q = parent as int;
            proof {
                assert(before[a].parent == Some(parent));
                lemma_parent_attached(before, solid.nodes(), h, leaf, a, q, item.eval, multivisit, plain);
            }
            carry = climb(
                tree,
                params,
                &carry,
                counted,
                best_edge,
                parent,
                head,
                root_is_black,
                root_move_filter,
                Ghost(backup),
                Ghost(start),
            );
            proof {
                lemma_climbed(
                    before,
                    solid.nodes(),
                    tree.nodes(),
                    leaf,
                    a,
                    q,
                    h,
                    item.eval,
                    counted.m,
                    multivisit,
                    plain,
                );
                backup.lemma_walk_goes_on(
                    *old(tree),
                    *item,
                    old(state).current_best_edge,
                    steps,
                    step,
                    *tree,
                    carry,
                );
                steps = steps.push(step);
                if plain {
                    assert forall|x: int| is_ancestor(before, x, q) implies #[trigger] carried_result(
                        before,
                        q,
                        one_ply_up(counted),
                        x,
                    ) == carried_result(before, leaf, item.eval, x) by {
                        lemma_ancestor_below(before, x, q);
                        assert(is_ancestor(before, x, a));
                        lemma_carry_step(before, a, q, brought.eval, counted, x);
                        assert(carried_result(before, a, brought.eval, x) == carried_result(
                            before,
                            leaf,
                            item.eval,
                            x,
                        ));
                    }
                }
            }
        }
    }
    state.current_best_edge = carry.best_edge;
    proof {
        reveal(carrying);
        reveal(carrying_plainly);
        assert forall|x: int| 0 <= x < before.len() implies #[trigger] on_path(before, h, leaf, x) == (
        is_served(before, leaf, h, x) || x == h) by {
            assert(is_ancestor(before, h, h));
            if is_ancestor(before, x, leaf) {
                lemma_chain(before, x, h, leaf);
                if is_ancestor(before, x, h) && is_ancestor(before, h, x) {
                    lemma_ancestor_below(before, x, h);
                    lemma_ancestor_below(before, h, x);
                }
            }
        }
        assert(place_kept(before[h], tree.nodes()[h]));
    }
    state.total_playouts = state.total_playouts + multivisit as u64;
    if item.nn_queried && !item.is_cache_hit {
        state.network_evaluations = state.network_evaluations + 1;
    }
    proof {
        assert(item.depth * item.multivisit <= 0xffff * 0xffff_ffff) by (nonlinear_arith)
            requires
                item.depth <= 0xffff,
                item.multivisit <= 0xffff_ffff,
        ;
    }
    state.cum_depth = state.cum_depth + item.depth as u64 * multivisit as u64;
    if item.depth > state.max_depth {
        state.max_depth = item.depth;
    }
}

/// Serving a node keeps what holds while a result is carried up.
proof fn lemma_node_served<S: Scalar>(
    before: Seq<Node<S>>,
    start: Seq<Node<S>>,
    solid: Seq<Node<S>>,
    leaf: int,
    eval: Evaluation<S>,
    plain: bool,
    backup: Backup<S>,
    carry: Carry<S>,
)
    requires
        carry.at < before.len() <= start.len(),
        is_ancestor(before, carry.at as int, leaf),
        well_linked(backup.served(start, carry)),
        start[carry.at as int].n + backup.multivisit <= u32::MAX,
        start[carry.at as int].n_in_flight >= backup.multivisit,
        solid == backup.served(start, carry) || solidified(
            backup.served(start, carry),
            solid,
            carry.at as int,
        ),
        carrying(before, start, leaf, carry.at as int, false, backup.multivisit as int),
        plain ==> carry.n_to_fix == 0,
        plain ==> carrying_plainly(
            before,
            start,
            leaf,
            carry.at as int,
            false,
            eval,
            backup.multivisit,
        ),
        plain ==> carried_result(before, carry.at as int, carry.eval, carry.at as int)
            == carried_result(before, leaf, eval, carry.at as int),
    ensures
        carrying(before, solid, leaf, carry.at as int, true, backup.multivisit as int),
        plain ==> carrying_plainly(
            before,
            solid,
            leaf,
            carry.at as int,
            true,
            eval,
            backup.multivisit,
        ),
        plain ==> backup.counted(start, carry) == result_at(before[carry.at as int], carry.eval),
        forall|j: int| 0 <= j < start.len() ==> (#[trigger] solid[j]).terminal == start[j].terminal,
        solid.len() <= start.len() + u8::MAX,
{
    let a = carry.at as int;
    let served = backup.served(start, carry);
    lemma_carrying_at(before, start, leaf, a, false, eval, backup.multivisit, plain, a);
    assert(is_ancestor(before, a, a));
    assert(place_kept(start[a], served[a]));
    assert(node_linked(served, a));
    lemma_served_keeps_carrying(before, start, served, leaf, a, backup.multivisit as int);
    if plain {
        lemma_served_keeps_plain(
            before,
            start,
            served,
            leaf,
            a,
            eval,
            backup.counted(start, carry),
            backup.multivisit,
        );
    }
    lemma_solid_keeps_carrying(before, served, solid, leaf, a, eval, backup.multivisit, plain);
    assert forall|j: int| 0 <= j < start.len() implies (#[trigger] solid[j]).terminal
        == start[j].terminal by {
        assert(solid[j].terminal == served[j].terminal);
    }
}

/// The parent of a served node is found behind an edge of its own parent.
proof fn lemma_parent_attached<S: Scalar>(
    before: Seq<Node<S>>,
    solid: Seq<Node<S>>,
    h: int,
    leaf: int,
    a: int,
    q: int,
    eval: Evaluation<S>,
    multivisit: u32,
    plain: bool,
)
    requires
        well_linked(before),
        0 <= a < before.len(),
        a != h,
        0 <= h,
        before[a].parent == Some(q as usize),
        0 <= q <= usize::MAX,
        is_ancestor(before, a, leaf),
        attached_up_to(before, h, a),
        carrying(before, solid, leaf, a, true, multivisit as int),
        plain ==> carrying_plainly(before, solid, leaf, a, true, eval, multivisit),
    ensures
        q < a,
        is_ancestor(before, q, leaf),
        attached_up_to(before, h, q),
        solid[a].parent == before[a].parent,
        q != h ==> (solid[q].parent matches Some(p) ==> p < before.len() && solid[q].edge_index
            < solid[p as int].edges@.len()),
{
    assert(node_linked(before, a));
    assert(is_ancestor(before, q, q));
    assert(is_ancestor(before, q, a));
    lemma_ancestor_transitive(before, q, a, leaf);
    assert forall|j: int| 0 <= j < before.len() implies place_kept(before[j], #[trigger] solid[j]) by {
        lemma_carrying_at(before, solid, leaf, a, true, eval, multivisit, plain, j);
    }
    lemma_carrying_at(before, solid, leaf, a, true, eval, multivisit, plain, a);
    lemma_attached_stable(before, solid, h, q);
    assert(place_kept(before[q], solid[q]));
    assert(node_linked(before, q));
}

/// Going on to the parent keeps what holds while a result is carried up.
proof fn lemma_climbed<S: Scalar>(
    before: Seq<Node<S>>,
    solid: Seq<Node<S>>,
    nodes: Seq<Node<S>>,
    leaf: int,
    a: int,
    q: int,
    h: int,
    eval: Evaluation<S>,
    m: S,
    multivisit: u32,
    plain: bool,
)
    requires
        well_linked(before),
        well_linked(solid),
        0 <= a < before.len() <= solid.len(),
        0 <= q < a,
        0 <= h < before.len(),
        before[a].parent == Some(q as usize),
        q <= usize::MAX,
        is_ancestor(before, a, leaf),
        carrying(before, solid, leaf, a, true, multivisit as int),
        plain ==> carrying_plainly(before, solid, leaf, a, true, eval, multivisit),
        plain ==> nodes == solid,
        nodes == solid || (q != h && bounds_set(solid, nodes, q, m)),
        q != h ==> (solid[q].parent matches Some(p) ==> solid[q].edge_index
            < solid[p as int].edges@.len()),
    ensures
        carrying(before, nodes, leaf, q, false, multivisit as int),
        plain ==> carrying_plainly(before, nodes, leaf, q, false, eval, multivisit),
        nodes[h].terminal == solid[h].terminal,
        nodes.len() == solid.len(),
        nodes[h].edges@.len() == before[h].edges@.len(),
{
    assert(node_linked(solid, q));
    if nodes != solid {
        assert(proof_frame(solid, nodes, q));
        lemma_bounds_keep_carrying(before, solid, nodes, leaf, a, q, h, multivisit as int);
    }
    lemma_carrying_at(before, nodes, leaf, a, true, eval, multivisit, plain, h);
    lemma_step_up(before, nodes, leaf, a, q, eval, multivisit, plain);
}

/// What is known of one node while a result is carried up.
proof fn lemma_carrying_at<S: Scalar>(
    before: Seq<Node<S>>,
    nodes: Seq<Node<S>>,
    leaf: int,
    at: int,
    including: bool,
    eval: Evaluation<S>,
    multivisit: u32,
    plain: bool,
    j: int,
)
    requires
        carrying(before, nodes, leaf, at, including, multivisit as int),
        plain ==> carrying_plainly(before, nodes, leaf, at, including, eval, multivisit),
        0 <= j < before.len(),
    ensures
        before.len() <= nodes.len(),
        place_kept(before[j], nodes[j]),
        !is_served(before, leaf, at, j) && !(including && j == at) ==> nodes[j].n == before[j].n
            && nodes[j].n_in_flight == before[j].n_in_flight && (plain ==> same_stats(
            nodes[j],
            before[j],
        )),
{
    reveal(carrying);
    reveal(carrying_plainly);
    assert(nodes[j] == nodes[j]);
}

proof fn lemma_carrying_begins<S: Scalar>(
    before: Seq<Node<S>>,
    leaf: int,
    eval: Evaluation<S>,
    multivisit: u32,
)
    ensures
        carrying(before, before, leaf, leaf, false, multivisit as int),
        carrying_plainly(before, before, leaf, leaf, false, eval, multivisit),
{
    reveal(carrying);
    reveal(carrying_plainly);
    assert forall|j: int| 0 <= j < before.len() implies place_kept(before[j], #[trigger] before[j]) by {}
}

proof fn lemma_carry_step<S: Scalar>(
    nodes: Seq<Node<S>>,
    a: int,
    q: int,
    incoming: Evaluation<S>,
    counted: Evaluation<S>,
    x: int,
)
    requires
        nodes[a].parent == Some(q as usize),
        0 <= q < a,
        q <= usize::MAX,
        x != a,
        counted == result_at(nodes[a], incoming),
    ensures
        carried_result(nodes, a, incoming, x) == carried_result(nodes, q, one_ply_up(counted), x),
{
}

proof fn lemma_served_keeps_carrying<S: Scalar>(
    before: Seq<Node<S>>,
    start: Seq<Node<S>>,
    served: Seq<Node<S>>,
    leaf: int,
    a: int,
    multivisit: int,
)
    requires
        0 <= a < before.len(),
        is_ancestor(before, a, leaf),
        carrying(before, start, leaf, a, false, multivisit),
        served == start.update(a, served[a]),
        place_kept(start[a], served[a]),
        served[a].n == start[a].n + multivisit,
        served[a].n_in_flight == start[a].n_in_flight - multivisit,
    ensures
        carrying(before, served, leaf, a, true, multivisit),
{
    reveal(carrying);
    reveal(carrying_plainly);
    assert(is_ancestor(before, a, a));
    assert forall|j: int| 0 <= j < before.len() implies place_kept(before[j], #[trigger] served[j]) by {
        assert(place_kept(before[j], start[j]));
        if j == a {
            assert forall|e: int|
                0 <= e < before[j].children@.len() && #[trigger] before[j].children@[e] is Some implies served[j].children@[e]
                == before[j].children@[e] by {
                assert(start[j].children@[e] == before[j].children@[e]);
            }
            assert forall|e: int| 0 <= e < before[j].edges@.len() implies (
            #[trigger] served[j].edges@[e]).mv == before[j].edges@[e].mv by {
                assert(start[j].edges@[e].mv == before[j].edges@[e].mv);
            }
        }
    }
}

proof fn lemma_served_keeps_plain<S: Scalar>(
    before: Seq<Node<S>>,
    start: Seq<Node<S>>,
    served: Seq<Node<S>>,
    leaf: int,
    a: int,
    eval: Evaluation<S>,
    counted: Evaluation<S>,
    multivisit: u32,
)
    requires
        0 <= a < before.len() <= start.len(),
        is_ancestor(before, a, leaf),
        carrying_plainly(before, start, leaf, a, false, eval, multivisit),
        served == start.update(a, served[a]),
        counted == carried_result(before, leaf, eval, a),
        served[a] == start[a].finalized(counted.wl, counted.d, counted.m, multivisit),
    ensures
        carrying_plainly(before, served, leaf, a, true, eval, multivisit),
{
    reveal(carrying);
    reveal(carrying_plainly);
    assert(is_ancestor(before, a, a));
    assert forall|j: int| 0 <= j < before.len() implies if is_served(before, leaf, a, j) || j == a {
        let result = carried_result(before, leaf, eval, j);
        same_stats(
            #[trigger] served[j],
            before[j].finalized(result.wl, result.d, result.m, multivisit),
        )
    } else {
        same_stats(served[j], before[j])
    } by {
        assert(start[j] == start[j]);
    }
}

proof fn lemma_solid_keeps_carrying<S: Scalar>(
    before: Seq<Node<S>>,
    served: Seq<Node<S>>,
    solid: Seq<Node<S>>,
    leaf: int,
    a: int,
    eval: Evaluation<S>,
    multivisit: u32,
    plain: bool,
)
    requires
        0 <= a < before.len(),
        well_linked(served),
        carrying(before, served, leaf, a, true, multivisit as int),
        plain ==> carrying_plainly(before, served, leaf, a, true, eval, multivisit),
        solid == served || solidified(served, solid, a),
    ensures
        carrying(before, solid, leaf, a, true, multivisit as int),
        plain ==> carrying_plainly(before, solid, leaf, a, true, eval, multivisit),
        forall|j: int| 0 <= j < served.len() ==> (#[trigger] solid[j]).terminal == served[j].terminal,
{
    reveal(carrying);
    reveal(carrying_plainly);
    if solid != served {
        assert(node_linked(served, a));
        assert forall|j: int| 0 <= j < before.len() implies place_kept(before[j], #[trigger] solid[j]) by {
            assert(place_kept(before[j], served[j]));
            if j == a {
                assert forall|e: int|
                    0 <= e < before[j].children@.len() && #[trigger] before[j].children@[e] is Some implies solid[j].children@[e]
                    == before[j].children@[e] by {
                    assert(served[j].children@[e] == before[j].children@[e]);
                }
            } else {
                assert(solid[j] == served[j]);
            }
        }
        assert forall|j: int| 0 <= j < served.len() implies same_stats(served[j], #[trigger] solid[j]) by {
            if j != a {
                assert(solid[j] == served[j]);
            }
        }
        assert forall|j: int| before.len() <= j < solid.len() implies (#[trigger] solid[j]).n == 0
            && solid[j].n_in_flight == 0 by {
            if j < served.len() {
                assert(served[j].n == 0);
            } else {
                assert(solid[j].is_fresh(Some(a as usize), solid[j].edge_index));
            }
        }
        assert forall|j: int| 0 <= j < before.len() implies (#[trigger] solid[j]).n == served[j].n
            && solid[j].n_in_flight == served[j].n_in_flight by {
            assert(same_stats(served[j], solid[j]));
        }
        if plain {
            assert forall|j: int| 0 <= j < before.len() implies if is_served(before, leaf, a, j) || j
                == a {
                let result = carried_result(before, leaf, eval, j);
                same_stats(
                    #[trigger] solid[j],
                    before[j].finalized(result.wl, result.d, result.m, multivisit),
                )
            } else {
                same_stats(solid[j], before[j])
            } by {
                assert(same_stats(served[j], solid[j]));
            }
        }
    }
}

proof fn lemma_step_up<S: Scalar>(
    before: Seq<Node<S>>,
    nodes: Seq<Node<S>>,
    leaf: int,
    a: int,
    q: int,
    eval: Evaluation<S>,
    multivisit: u32,
    plain: bool,
)
    requires
        well_linked(before),
        0 <= a < before.len(),
        before[a].parent == Some(q as usize),
        0 <= q < a,
        is_ancestor(before, a, leaf),
        carrying(before, nodes, leaf, a, true, multivisit as int),
        plain ==> carrying_plainly(before, nodes, leaf, a, true, eval, multivisit),
    ensures
        carrying(before, nodes, leaf, q, false, multivisit as int),
        plain ==> carrying_plainly(before, nodes, leaf, q, false, eval, multivisit),
{
    reveal(carrying);
    reveal(carrying_plainly);
    assert forall|j: int| 0 <= j < before.len() implies #[trigger] is_served(before, leaf, q, j) == (
    is_served(before, leaf, a, j) || j == a) by {
        assert(is_ancestor(before, j, a) == (j == a || is_ancestor(before, j, q)));
        if is_ancestor(before, a, q) {
            lemma_ancestor_below(before, a, q);
        }
    }
    assert forall|j: int| 0 <= j < before.len() implies (#[trigger] nodes[j]).n == before[j].n + (
    if is_served(before, leaf, q, j) {
        multivisit as int
    } else {
        0
    }) && nodes[j].n_in_flight == before[j].n_in_flight - (if is_served(before, leaf, q, j) {
        multivisit as int
    } else {
        0
    }) by {
        assert(is_served(before, leaf, q, j) == (is_served(before, leaf, a, j) || j == a));
    }
    if plain {
        assert forall|j: int| 0 <= j < before.len() implies if is_served(before, leaf, q, j) {
            let result = carried_result(before, leaf, eval, j);
            same_stats(
                #[trigger] nodes[j],
                before[j].finalized(result.wl, result.d, result.m, multivisit),
            )
        } else {
            same_stats(nodes[j], before[j])
        } by {
            assert(is_served(before, leaf, q, j) == (is_served(before, leaf, a, j) || j == a));
        }
    }
}

/// What may have changed when a conclusion was drawn for node `q`: the node's own
/// result, and the prior of the edge that leads to it.
spec fn proof_frame<S: Scalar>(before: Seq<Node<S>>, after: Seq<Node<S>>, q: int) -> bool {
    &&& after.len() == before.len()
    &&& forall|j: int|
        0 <= j < before.len() && j != q && before[q].parent != Some(j as usize)
            ==> #[trigger] after[j] == before[j]
    &&& after[q] == (Node {
        wl: after[q].wl,
        d: after[q].d,
        m: after[q].m,
        terminal: after[q].terminal,
        lower_bound: after[q].lower_bound,
        upper_bound: after[q].upper_bound,
        ..before[q]
    })
    &&& before[q].parent matches Some(p) ==> {
        &&& after[p as int] == (Node { edges: after[p as int].edges, ..before[p as int] })
        &&& after[p as int].edges@.len() == before[p as int].edges@.len()
        &&& forall|e: int|
            0 <= e < before[p as int].edges@.len() ==> (#[trigger] after[p as int].edges@[e]).mv
                == before[p as int].edges@[e].mv
    }
}

proof fn lemma_bounds_keep_carrying<S: Scalar>(
    before: Seq<Node<S>>,
    solid: Seq<Node<S>>,
    nodes: Seq<Node<S>>,
    leaf: int,
    a: int,
    q: int,
    h: int,
    multivisit: int,
)
    requires
        well_linked(solid),
        0 <= q < before.len() <= solid.len(),
        q != h,
        carrying(before, solid, leaf, a, true, multivisit),
        nodes.len() == solid.len(),
        solid[q].parent matches Some(p) ==> solid[q].edge_index < solid[p as int].edges@.len(),
        proof_frame(solid, nodes, q),
    ensures
        carrying(before, nodes, leaf, a, true, multivisit),
        0 <= h < before.len() ==> nodes[h].terminal == solid[h].terminal,
{
    reveal(carrying);
    reveal(carrying_plainly);
    assert(node_linked(solid, q));
    assert forall|j: int| 0 <= j < solid.len() implies {
        &&& place_kept(solid[j], #[trigger] nodes[j])
        &&& nodes[j].n == solid[j].n
        &&& nodes[j].n_in_flight == solid[j].n_in_flight
        &&& j != q ==> nodes[j].terminal == solid[j].terminal
    } by {
        if nodes == solid {
        } else if j == q {
        } else if solid[q].parent == Some(j as usize) {
        } else {
        }
    }
    assert forall|j: int| 0 <= j < before.len() implies place_kept(before[j], #[trigger] nodes[j]) by {
        assert(place_kept(before[j], solid[j]));
        assert(place_kept(solid[j], nodes[j]));
        assert forall|e: int|
            0 <= e < before[j].children@.len() && #[trigger] before[j].children@[e] is Some implies nodes[j].children@[e]
            == before[j].children@[e] by {
            assert(solid[j].children@[e] == before[j].children@[e]);
        }
        assert forall|e: int| 0 <= e < before[j].edges@.len() implies (#[trigger] nodes[j].edges@[e]).mv
            == before[j].edges@[e].mv by {
            assert(solid[j].edges@[e].mv == before[j].edges@[e].mv);
        }
    }
}

/// Whether node `x` lies `plies` plies above node `c`, with no terminal node on the way from
/// there.
pub open spec fn lies_above<S: Scalar>(nodes: Seq<Node<S>>, x: int, c: int, plies: nat) -> bool
    decreases plies,
{
    if plies == 0 {
        x == c
    } else {
        match nodes[c].parent {
            Some(p) => p < c && !nodes[p as int].spec_is_terminal() && lies_above(
                nodes,
                x,
                p as int,
                (plies - 1) as nat,
            ),
            None => false,
        }
    }
}

proof fn lemma_above_is_ancestor<S: Scalar>(nodes: Seq<Node<S>>, x: int, c: int, plies: nat)
    requires
        lies_above(nodes, x, c, plies),
    ensures
        is_ancestor(nodes, x, c),
        x <= c,
        plies > 0 ==> x < c,
    decreases plies,
{
    if plies > 0 {
        lemma_above_is_ancestor(nodes, x, nodes[c].parent->Some_0 as int, (plies - 1) as nat);
    }
}

/// A value that is carried up changes sides with each ply, and its draw share stays.
proof fn lemma_carried_value<S: Scalar>(
    value: spec_fn(S) -> real,
    round: spec_fn(real) -> real,
    nodes: Seq<Node<S>>,
    x: int,
    c: int,
    eval: Evaluation<S>,
    plies: nat,
)
    requires
        rounds_by(value, round),
        is_even_rounding(round),
        lies_above(nodes, x, c, plies),
    ensures
        ({
            let own = result_at(nodes[c], eval);
            let carried = carried_result(nodes, c, eval, x);
            &&& value(carried.wl) == (if plies % 2 == 0 {
                value(own.wl)
            } else {
                -value(own.wl)
            })
            &&& carried.d == own.d
        }),
    decreases plies,
{
    if plies > 0 {
        let p = nodes[c].parent->Some_0 as int;
        let own = result_at(nodes[c], eval);
        lemma_above_is_ancestor(nodes, x, c, plies);
        lemma_carried_value(value, round, nodes, x, p, one_ply_up(own), (plies - 1) as nat);
        let v = value(own.wl);
        assert(round(-v) == -round(v));
    }
}

/// Where nothing is rounded, a line that is carried up grows by a ply each time.
proof fn lemma_carried_length<S: Scalar>(
    value: spec_fn(S) -> real,
    nodes: Seq<Node<S>>,
    x: int,
    c: int,
    eval: Evaluation<S>,
    plies: nat,
)
    requires
        is_unrounded(value),
        lies_above(nodes, x, c, plies),
    ensures
        value(carried_result(nodes, c, eval, x).m) == value(result_at(nodes[c], eval).m) + (
        plies as real),
    decreases plies,
{
    if plies > 0 {
        let p = nodes[c].parent->Some_0 as int;
        let own = result_at(nodes[c], eval);
        lemma_above_is_ancestor(nodes, x, c, plies);
        lemma_carried_length(value, nodes, x, p, one_ply_up(own), (plies - 1) as nat);
    }
}

/// Where nothing is rounded, an average that is moved is that of the old visits and the new.
proof fn lemma_nudged_average<S: Scalar>(
    value: spec_fn(S) -> real,
    average: S,
    result: S,
    n: u32,
    visits: u32,
)
    requires
        is_unrounded(value),
        0 < n + visits <= u32::MAX,
    ensures
        value(
            nudged(
                average,
                visits,
                result.spec_minus(average),
                S::spec_count((n + visits) as u32),
            ),
        ) * ((n + visits) as real) == value(average) * (n as real) + value(result) * (
        visits as real),
{
    let total = S::spec_count((n + visits) as u32);
    let change = S::spec_count(visits).spec_times(result.spec_minus(average));
    lemma_quotient(value, change, total);
    let step = value(change.spec_over(total));
    let (a, v, i, k) = (value(average), value(result), n as real, visits as real);
    assert((n + visits) as real == i + k);
    assert((a + step) * (i + k) == a * i + v * k) by (nonlinear_arith)
        requires
            step * (i + k) == k * (v - a),
    ;
}

/// Where nothing is rounded, a node that took a result has the averages of its old visits
/// and the new.
proof fn lemma_average_of_visits<S: Scalar>(
    value: spec_fn(S) -> real,
    before: Node<S>,
    after: Node<S>,
    result: Evaluation<S>,
    visits: u32,
)
    requires
        is_unrounded(value),
        0 < before.n + visits <= u32::MAX,
        same_stats(after, before.finalized(result.wl, result.d, result.m, visits)),
    ensures
        ({
            let (n, k) = (before.n as real, visits as real);
            &&& after.n == before.n + visits
            &&& value(after.wl) * (n + k) == value(before.wl) * n + value(result.wl) * k
            &&& value(after.d) * (n + k) == value(before.d) * n + value(result.d) * k
            &&& value(after.m) * (n + k) == value(before.m) * n + value(result.m) * k
        }),
{
    assert((before.n + visits) as real == (before.n as real) + (visits as real));
    lemma_nudged_average(value, before.wl, result.wl, before.n, visits);
    lemma_nudged_average(value, before.d, result.d, before.n, visits);
    lemma_nudged_average(value, before.m, result.m, before.n, visits);
}

/// A result is carried up to every node above the one it was found at, up to the head of the
/// tree. Where nothing is rounded, each has then the average of its earlier visits and of the
/// new ones, which count the value found for the player who found it and its opposite for the
/// other: that of a node an even number of plies above moves towards it, that of one an odd
/// number of plies above towards its opposite. Draws count the same for both, and the line
/// is a ply longer for each ply. Where a terminal node is visited, its own result is carried
/// up. A first visit that may prove something is left out here.
pub proof fn law_averages_take_the_value_from_their_side<S: Scalar>(
    value: spec_fn(S) -> real,
    tree: &mut NodeTree<S>,
    state: &mut WorkerSearchState,
    params: SearchParams<S>,
    item: NodeToProcess<S>,
    root_is_black: bool,
    root_move_filter: Vec<Move>,
    x: int,
    plies: nat,
)
    requires
        is_unrounded(value),
        call_ensures(
            do_backup_update_single_node::<S>,
            (tree, state, &params, &item, root_is_black, &root_move_filter),
            (),
        ),
        !(params.sticky_endgames && old(tree).nodes()[item.node_idx as int].spec_is_terminal()
            && old(tree).nodes()[item.node_idx as int].n == 0),
        0 <= x < old(tree).nodes().len(),
        lies_above(old(tree).nodes(), x, item.node_idx as int, plies),
        is_ancestor(old(tree).nodes(), old(tree).head(), x),
        0 < old(tree).nodes()[x].n + item.multivisit <= u32::MAX,
    ensures
        ({
            let leaf = old(tree).nodes()[item.node_idx as int];
            let (wl, d, m) = if leaf.spec_is_terminal() {
                (value(leaf.wl), value(leaf.d), value(leaf.m))
            } else {
                (value(item.eval.wl), value(item.eval.d), value(item.eval.m))
            };
            let before = old(tree).nodes()[x];
            let after = final(tree).nodes()[x];
            let (n, k) = (before.n as real, item.multivisit as real);
            let seen = if plies % 2 == 0 {
                wl
            } else {
                -wl
            };
            &&& after.n == before.n + item.multivisit
            &&& value(after.wl) * (n + k) == value(before.wl) * n + seen * k
            &&& value(after.d) * (n + k) == value(before.d) * n + d * k
            &&& value(after.m) * (n + k) == value(before.m) * n + (m + (plies as real)) * k
        }),
{
    let nodes = old(tree).nodes();
    let c = item.node_idx as int;
    let result = carried_result(nodes, c, item.eval, x);
    lemma_above_is_ancestor(nodes, x, c, plies);
    assert(on_path(nodes, old(tree).head(), c, x));
    lemma_carried_value(value, |r: real| r, nodes, x, c, item.eval, plies);
    lemma_carried_length(value, nodes, x, c, item.eval, plies);
    lemma_average_of_visits(value, nodes[x], final(tree).nodes()[x], result, item.multivisit);
}

/// However results are rounded, as long as that treats both sides alike, no average moves
/// away from the value that is carried up to it: that found, an even number of plies above,
/// or its opposite, an odd number above.
pub proof fn law_averages_move_towards_the_value<S: Scalar>(
    value: spec_fn(S) -> real,
    round: spec_fn(real) -> real,
    tree: &mut NodeTree<S>,
    state: &mut WorkerSearchState,
    params: SearchParams<S>,
    item: NodeToProcess<S>,
    root_is_black: bool,
    root_move_filter: Vec<Move>,
    x: int,
    plies: nat,
)
    requires
        rounds_by(value, round),
        is_even_rounding(round),
        call_ensures(
            do_backup_update_single_node::<S>,
            (tree, state, &params, &item, root_is_black, &root_move_filter),
            (),
        ),
        !old(tree).nodes()[item.node_idx as int].spec_is_terminal(),
        0 <= x < old(tree).nodes().len(),
        lies_above(old(tree).nodes(), x, item.node_idx as int, plies),
        is_ancestor(old(tree).nodes(), old(tree).head(), x),
        0 < old(tree).nodes()[x].n + item.multivisit <= u32::MAX,
    ensures
        ({
            let wl = value(item.eval.wl);
            let seen = if plies % 2 == 0 {
                wl
            } else {
                -wl
            };
            let before = value(old(tree).nodes()[x].wl);
            let after = value(final(tree).nodes()[x].wl);
            &&& seen >= before ==> after >= before
            &&& seen <= before ==> after <= before
        }),
{
    let nodes = old(tree).nodes();
    let c = item.node_idx as int;
    let result = carried_result(nodes, c, item.eval, x);
    let before = nodes[x];
    lemma_above_is_ancestor(nodes, x, c, plies);
    lemma_carried_value(value, round, nodes, x, c, item.eval, plies);
    assert(on_path(nodes, old(tree).head(), c, x));
    assert(same_stats(
        final(tree).nodes()[x],
        before.finalized(result.wl, result.d, result.m, item.multivisit),
    ));
    lemma_nudged_direction(value, round, before.wl, result.wl, before.n, item.multivisit);
}

proof fn lemma_nudged_direction<S: Scalar>(
    value: spec_fn(S) -> real,
    round: spec_fn(real) -> real,
    average: S,
    result: S,
    n: u32,
    visits: u32,
)
    requires
        rounds_by(value, round),
        0 < n + visits <= u32::MAX,
    ensures
        ({
            let after = nudged(
                average,
                visits,
                result.spec_minus(average),
                S::spec_count((n + visits) as u32),
            );
            &&& value(result) >= value(average) ==> value(after) >= value(average)
            &&& value(result) <= value(average) ==> value(after) <= value(average)
        }),
{
    let total = S::spec_count((n + visits) as u32);
    let weight = S::spec_count(visits);
    let change = result.spec_minus(average);
    let zero = S::spec_zero();
    lemma_counts(value, round, visits);
    lemma_counts(value, round, (n + visits) as u32);
    lemma_scaling_keeps_sign(value, round, change, weight);
    lemma_scaling_keeps_sign(value, round, weight.spec_times(change), total);
    let step = weight.spec_times(change).spec_over(total);
    let (a, r) = (value(average), value(result));
    if r >= a {
        assert(round(value(zero)) <= round(r - a));
        assert(round(a) <= round(a + value(step)));
    }
    if r <= a {
        assert(round(r - a) <= round(value(zero)));
        assert(round(a + value(step)) <= round(a));
    }
}

/// The parent of a leaf that is not terminal moves its average by the share of the new
/// visits in the distance to the opposite of the value found, whatever numbers are reckoned
/// with; the leaf itself by that in the distance to the value.
pub proof fn law_parent_takes_the_opposite_value<S: Scalar>(
    tree: &mut NodeTree<S>,
    state: &mut WorkerSearchState,
    params: SearchParams<S>,
    item: NodeToProcess<S>,
    root_is_black: bool,
    root_move_filter: Vec<Move>,
    parent: usize,
)
    requires
        call_ensures(
            do_backup_update_single_node::<S>,
            (tree, state, &params, &item, root_is_black, &root_move_filter),
            (),
        ),
        item.node_idx < old(tree).nodes().len(),
        !old(tree).nodes()[item.node_idx as int].spec_is_terminal(),
        old(tree).nodes()[item.node_idx as int].parent == Some(parent),
        parent < item.node_idx,
        !old(tree).nodes()[parent as int].spec_is_terminal(),
        is_ancestor(old(tree).nodes(), old(tree).head(), parent as int),
        old(tree).nodes()[parent as int].n + item.multivisit <= u32::MAX,
        old(tree).nodes()[item.node_idx as int].n + item.multivisit <= u32::MAX,
    ensures
        ({
            let k = S::spec_count(item.multivisit);
            let p = old(tree).nodes()[parent as int];
            let c = old(tree).nodes()[item.node_idx as int];
            let p_total = S::spec_count((p.n + item.multivisit) as u32);
            let c_total = S::spec_count((c.n + item.multivisit) as u32);
            let (p_after, c_after) = (
                final(tree).nodes()[parent as int],
                final(tree).nodes()[item.node_idx as int],
            );
            &&& p_after.wl == p.wl.spec_plus(
                k.spec_times(item.eval.wl.spec_negated().spec_minus(p.wl)).spec_over(p_total),
            )
            &&& c_after.wl == c.wl.spec_plus(
                k.spec_times(item.eval.wl.spec_minus(c.wl)).spec_over(c_total),
            )
            &&& p_after.m == p.m.spec_plus(
                k.spec_times(
                    item.eval.m.spec_plus(S::spec_one()).spec_minus(p.m),
                ).spec_over(p_total),
            )
            &&& p_after.d == p.d.spec_plus(
                k.spec_times(item.eval.d.spec_minus(p.d)).spec_over(p_total),
            )
        }),
{
    let nodes = old(tree).nodes();
    let c = item.node_idx as int;
    reveal_with_fuel(is_ancestor, 2);
    reveal_with_fuel(carried_result, 2);
    assert(is_ancestor(nodes, parent as int, parent as int));
    assert(on_path(nodes, old(tree).head(), c, parent as int));
    assert(on_path(nodes, old(tree).head(), c, c)) by {
        lemma_ancestor_transitive(nodes, old(tree).head(), parent as int, c);
    }
    let up = carried_result(nodes, c, item.eval, parent as int);
    assert(same_stats(
        final(tree).nodes()[parent as int],
        nodes[parent as int].finalized(up.wl, up.d, up.m, item.multivisit),
    ));
    let own = carried_result(nodes, c, item.eval, c);
    assert(same_stats(
        final(tree).nodes()[c],
        nodes[c].finalized(own.wl, own.d, own.m, item.multivisit),
    ));
}

/// A settled entry counts its visits as playouts, each with its depth, and one evaluation
/// where the network was asked and had not answered before; the greatest depth so far is
/// kept. What the workers share besides stays.
pub proof fn law_settled_entry_is_counted<S: Scalar>(
    tree: &mut NodeTree<S>,
    state: &mut WorkerSearchState,
    params: SearchParams<S>,
    item: NodeToProcess<S>,
    root_is_black: bool,
    root_move_filter: Vec<Move>,
)
    requires
        call_ensures(
            do_backup_update_single_node::<S>,
            (tree, state, &params, &item, root_is_black, &root_move_filter),
            (),
        ),
        old(state).total_playouts + item.multivisit <= u64::MAX,
        old(state).network_evaluations < u64::MAX,
        old(state).cum_depth + item.depth * item.multivisit <= u64::MAX,
    ensures
        final(state).total_playouts - old(state).total_playouts == item.multivisit,
        final(state).cum_depth - old(state).cum_depth == item.depth * item.multivisit,
        item.nn_queried && !item.is_cache_hit ==> final(state).network_evaluations
            == old(state).network_evaluations + 1,
        !item.nn_queried || item.is_cache_hit ==> final(state).network_evaluations
            == old(state).network_evaluations,
        final(state).max_depth >= item.depth,
        final(state).max_depth >= old(state).max_depth,
        final(state).max_depth == item.depth || final(state).max_depth == old(state).max_depth,
        final(state).stop == old(state).stop,
        final(state).shared_collisions == old(state).shared_collisions,
        final(state).total_batches == old(state).total_batches,
{
    assert(item.depth * item.multivisit >= 0) by (nonlinear_arith);
}

/// Settling an entry completes its visits on the way from its node to the head, where so many
/// fewer are under way, and no visits anywhere else.
pub proof fn law_visits_are_completed_on_the_way<S: Scalar>(
    tree: &mut NodeTree<S>,
    state: &mut WorkerSearchState,
    params: SearchParams<S>,
    item: NodeToProcess<S>,
    root_is_black: bool,
    root_move_filter: Vec<Move>,
    x: int,
)
    requires
        call_ensures(
            do_backup_update_single_node::<S>,
            (tree, state, &params, &item, root_is_black, &root_move_filter),
            (),
        ),
        0 <= x < old(tree).nodes().len(),
    ensures
        ({
            let (before, after) = (old(tree).nodes()[x], final(tree).nodes()[x]);
            let is_on_the_way = is_ancestor(old(tree).nodes(), old(tree).head(), x) && is_ancestor(
                old(tree).nodes(),
                x,
                item.node_idx as int,
            );
            &&& is_on_the_way ==> after.n - before.n == item.multivisit && before.n_in_flight
                - after.n_in_flight == item.multivisit
            &&& !is_on_the_way ==> after.n == before.n && after.n_in_flight == before.n_in_flight
        }),
{
}

} // verus!
