//! Settling the entries of a batch: completed ones are carried back to the root,
//! and collisions are taken back or shared.
use vstd::prelude::*;

use crate::classic::backup::{
    attached_up_to, cancel_collision, cancel_shared_collisions, collisions_load,
    do_backup_update_single_node, extend_collision, load_from, on_path, only_in_flight,
    place_kept, WorkerSearchState,
};
use crate::classic::gather::GatherState;
use crate::classic::loads::items_load;
use crate::classic::node::Node;
use crate::classic::params::SearchParams;
use crate::classic::settling::{Moment, Settling};
use crate::classic::tasks::NodeToProcess;
use crate::classic::tree::{is_ancestor, lemma_ancestor_stable, NodeTree};
use crate::classic::walk::is_counted;
use crate::position::Move;
use crate::scalar::Scalar;
use crate::sums::{lemma_sum_bounds, lemma_sum_remove, lemma_sum_same, lemma_sum_update, sum_by};

verus! {

/// What an entry weighs on node `x`, and is taken off again when it is settled.
pub open spec fn entry_load<S>(nodes: Seq<Node<S>>, head: int, x: int) -> spec_fn(
    NodeToProcess<S>,
) -> int {
    |item: NodeToProcess<S>|
        load_from(
            nodes,
            head,
            x,
            item.node_idx as int,
            item.multivisit as int,
            !item.is_collision,
        )
}

/// The visits of an entry.
pub open spec fn entry_visits<S>() -> spec_fn(NodeToProcess<S>) -> int {
    |item: NodeToProcess<S>| item.multivisit as int
}

/// A bound on the nodes that settling an entry may create.
pub open spec fn entry_growth<S>() -> spec_fn(NodeToProcess<S>) -> int {
    |item: NodeToProcess<S>| 256 * (item.node_idx + 1)
}

/// What an entry adds to the sum of depths.
pub open spec fn entry_depth<S>() -> spec_fn(NodeToProcess<S>) -> int {
    |item: NodeToProcess<S>| item.depth * item.multivisit
}

/// Everything that the entries of a batch need to be settled is there: each node is
/// found below the head, carries the visits of all entries, and has room for them
/// to complete; and so do the counters of the search.
pub open spec fn can_settle<S: Scalar>(
    nodes: Seq<Node<S>>,
    head: int,
    state: WorkerSearchState,
    items: Seq<NodeToProcess<S>>,
) -> bool {
    &&& 0 <= head < nodes.len()
    &&& forall|k: int|
        0 <= k < items.len() ==> (#[trigger] items[k]).node_idx < nodes.len() && attached_up_to(
            nodes,
            head,
            items[k].node_idx as int,
        )
    &&& forall|x: int|
        0 <= x < nodes.len() ==> (#[trigger] nodes[x]).n_in_flight >= sum_by(
            items,
            entry_load(nodes, head, x),
        ) && nodes[x].n + sum_by(items, entry_visits::<S>()) <= u32::MAX
    &&& sum_by(items, entry_visits::<S>()) <= u32::MAX
    &&& nodes.len() + sum_by(items, entry_growth::<S>()) < usize::MAX
    &&& state.total_playouts + sum_by(items, entry_visits::<S>()) <= u64::MAX
    &&& state.network_evaluations + items.len() <= u64::MAX
    &&& state.cum_depth + sum_by(items, entry_depth::<S>()) <= u64::MAX
}

proof fn lemma_entries_nonnegative<S: Scalar>(
    nodes: Seq<Node<S>>,
    head: int,
    items: Seq<NodeToProcess<S>>,
    x: int,
)
    ensures
        forall|k: int|
            0 <= k < items.len() ==> 0 <= entry_load(nodes, head, x)(#[trigger] items[k]) <= sum_by(
                items,
                entry_load(nodes, head, x),
            ),
        forall|k: int|
            0 <= k < items.len() ==> entry_visits::<S>()(#[trigger] items[k]) <= sum_by(
                items,
                entry_visits::<S>(),
            ),
        forall|k: int|
            0 <= k < items.len() ==> entry_growth::<S>()(#[trigger] items[k]) <= sum_by(
                items,
                entry_growth::<S>(),
            ),
        forall|k: int|
            0 <= k < items.len() ==> entry_depth::<S>()(#[trigger] items[k]) <= sum_by(
                items,
                entry_depth::<S>(),
            ),
        0 <= sum_by(items, entry_load(nodes, head, x)),
        0 <= sum_by(items, entry_visits::<S>()),
{
    lemma_sum_bounds(items, entry_load(nodes, head, x));
    lemma_sum_bounds(items, entry_visits::<S>());
    lemma_sum_bounds(items, entry_growth::<S>());
    assert forall|k: int| 0 <= k < items.len() implies entry_depth::<S>()(#[trigger] items[k]) >= 0 by {
        let depth = items[k].depth as int;
        let visits = items[k].multivisit as int;
        assert(depth * visits >= 0) by (nonlinear_arith)
            requires
                depth >= 0,
                visits >= 0,
        ;
    }
    lemma_sum_bounds(items, entry_depth::<S>());
}

/// Loads depend on the parent links alone.
proof fn lemma_entry_loads_stable<S: Scalar>(
    before: Seq<Node<S>>,
    after: Seq<Node<S>>,
    head: int,
    items: Seq<NodeToProcess<S>>,
    x: int,
)
    requires
        before.len() <= after.len(),
        0 <= x < before.len(),
        forall|j: int| 0 <= j < before.len() ==> (#[trigger] after[j]).parent == before[j].parent,
        forall|k: int| 0 <= k < items.len() ==> (#[trigger] items[k]).node_idx < before.len(),
    ensures
        sum_by(items, entry_load(before, head, x)) == sum_by(items, entry_load(after, head, x)),
{
    assert forall|j: int| 0 <= j < before.len() implies (#[trigger] before[j]).parent
        == after[j].parent by {
        assert(after[j].parent == before[j].parent);
    }
    assert forall|k: int| 0 <= k < items.len() implies entry_load(before, head, x)(#[trigger] items[k])
        == entry_load(after, head, x)(items[k]) by {
        lemma_ancestor_stable(before, after, head, x);
        lemma_ancestor_stable(before, after, x, items[k].node_idx as int);
    }
    lemma_sum_same(items, entry_load(before, head, x), entry_load(after, head, x));
}

/// Entries at older nodes weigh nothing on newer ones.
proof fn lemma_entry_loads_newer<S: Scalar>(
    nodes: Seq<Node<S>>,
    head: int,
    items: Seq<NodeToProcess<S>>,
    x: int,
)
    requires
        forall|k: int| 0 <= k < items.len() ==> (#[trigger] items[k]).node_idx < x,
    ensures
        sum_by(items, entry_load(nodes, head, x)) == 0,
    decreases items.len(),
{
    if items.len() > 0 {
        let rest = items.drop_last();
        assert forall|k: int| 0 <= k < rest.len() implies (#[trigger] rest[k]).node_idx < x by {
            assert(rest[k] == items[k]);
        }
        lemma_entry_loads_newer(nodes, head, rest, x);
        let last = items.last();
        assert(items[items.len() - 1] == last);
        if is_ancestor(nodes, x, last.node_idx as int) {
            crate::classic::tree::lemma_ancestor_below(nodes, x, last.node_idx as int);
        }
    }
}

proof fn lemma_attached_kept<S: Scalar>(
    before: Seq<Node<S>>,
    after: Seq<Node<S>>,
    head: int,
    c: int,
)
    requires
        0 <= c < before.len() <= after.len(),
        forall|j: int|
            0 <= j < before.len() ==> (#[trigger] after[j]).parent == before[j].parent
                && after[j].edge_index == before[j].edge_index && after[j].edges@.len()
                == before[j].edges@.len(),
        attached_up_to(before, head, c),
    ensures
        attached_up_to(after, head, c),
    decreases c,
{
    if c != head {
        let p = before[c].parent->Some_0 as int;
        assert(after[c].parent == before[c].parent);
        assert(after[p].edges@.len() == before[p].edges@.len());
        lemma_attached_kept(before, after, head, p);
    }
}

/// Once one entry has been settled the rest still can be.
proof fn lemma_settled_one<S: Scalar>(
    before: Seq<Node<S>>,
    after: Seq<Node<S>>,
    head: int,
    state: WorkerSearchState,
    state2: WorkerSearchState,
    items: Seq<NodeToProcess<S>>,
    i: int,
)
    requires
        can_settle(before, head, state, items),
        0 <= i < items.len(),
        before.len() <= after.len() <= before.len() + entry_growth::<S>()(items[i]),
        forall|j: int|
            0 <= j < before.len() ==> (#[trigger] after[j]).parent == before[j].parent
                && after[j].edge_index == before[j].edge_index && after[j].edges@.len()
                == before[j].edges@.len(),
        forall|x: int|
            0 <= x < before.len() ==> (#[trigger] after[x]).n_in_flight == before[x].n_in_flight
                - entry_load(before, head, x)(items[i]),
        forall|x: int| 0 <= x < before.len() ==> (#[trigger] after[x]).n <= before[x].n + items[i].multivisit,
        forall|x: int|
            before.len() <= x < after.len() ==> (#[trigger] after[x]).n == 0,
        state2.total_playouts <= state.total_playouts + items[i].multivisit,
        state2.network_evaluations <= state.network_evaluations + 1,
        state2.cum_depth <= state.cum_depth + items[i].depth * items[i].multivisit,
    ensures
        can_settle(after, head, state2, items.remove(i)),
{
    let rest = items.remove(i);
    lemma_sum_remove(items, i, entry_visits::<S>());
    lemma_sum_remove(items, i, entry_growth::<S>());
    lemma_sum_remove(items, i, entry_depth::<S>());
    lemma_entries_nonnegative(before, head, items, 0);
    lemma_entries_nonnegative(before, head, rest, 0);
    assert forall|k: int| 0 <= k < rest.len() implies (#[trigger] rest[k]).node_idx < after.len()
        && attached_up_to(after, head, rest[k].node_idx as int) by {
        let from = if k < i {
            k
        } else {
            k + 1
        };
        assert(rest[k] == items[from]);
        lemma_attached_kept(before, after, head, items[from].node_idx as int);
    }
    assert forall|k: int| 0 <= k < rest.len() implies (#[trigger] rest[k]).node_idx < before.len() by {
        let from = if k < i {
            k
        } else {
            k + 1
        };
        assert(rest[k] == items[from]);
    }
    assert forall|x: int| 0 <= x < after.len() implies (#[trigger] after[x]).n_in_flight >= sum_by(
        rest,
        entry_load(after, head, x),
    ) && after[x].n + sum_by(rest, entry_visits::<S>()) <= u32::MAX by {
        if x < before.len() {
            assert(before[x].n_in_flight >= sum_by(items, entry_load(before, head, x)));
            lemma_sum_remove(items, i, entry_load(before, head, x));
            lemma_entry_loads_stable(before, after, head, rest, x);
        } else {
            lemma_entry_loads_newer(after, head, rest, x);
        }
    }
}

/// Settles one entry that is no collision: its result is carried back.
fn settle_visit<S: Scalar>(
    tree: &mut NodeTree<S>,
    state: &mut WorkerSearchState,
    params: &SearchParams<S>,
    item: &NodeToProcess<S>,
    root_is_black: bool,
    root_move_filter: &Vec<Move>,
    Ghost(items): Ghost<Seq<NodeToProcess<S>>>,
    Ghost(i): Ghost<int>,
)
    requires
        old(tree).wf(),
        old(tree).current_head is Some,
        can_settle(old(tree).nodes(), old(tree).head(), *old(state), items),
        0 <= i < items.len(),
        items[i] == *item,
        !item.is_collision,
    ensures
        final(tree).wf(),
        *final(tree) == (NodeTree { arena: final(tree).arena, ..*old(tree) }),
        can_settle(final(tree).nodes(), final(tree).head(), *final(state), items.remove(i)),
        settled(old(tree).nodes(), final(tree).nodes(), old(tree).head(), *item),
        final(state).total_playouts == old(state).total_playouts + item.multivisit,
        final(state).shared_collisions == old(state).shared_collisions,
        final(state).total_batches == old(state).total_batches,
        (Settling {
            params: *params,
            root_is_black,
            filter: root_move_filter@,
        }).is_visit_settled(
            *item,
            Moment { tree: *old(tree), state: *old(state) },
            Moment { tree: *final(tree), state: *final(state) },
        ),
{
    let ghost before = tree.nodes();
    let ghost h = tree.head();
    proof {
        lemma_entries_nonnegative(before, h, items, 0);
        assert(items[i].node_idx < before.len());
        assert forall|x: int| 0 <= x < before.len() && on_path(before, h, item.node_idx as int, x) implies (
        #[trigger] before[x]).n + item.multivisit <= u32::MAX && before[x].n_in_flight
            >= item.multivisit by {
            lemma_entries_nonnegative(before, h, items, x);
            assert(before[x].n_in_flight >= sum_by(items, entry_load(before, h, x)));
            assert(entry_load(before, h, x)(items[i]) == item.multivisit);
            assert(entry_visits::<S>()(items[i]) == item.multivisit);
        }
        assert(entry_growth::<S>()(items[i]) == 256 * (item.node_idx + 1));
        assert(entry_visits::<S>()(items[i]) == item.multivisit);
        assert(entry_depth::<S>()(items[i]) == item.depth * item.multivisit);
    }
    do_backup_update_single_node(tree, state, params, item, root_is_black, root_move_filter);
    proof {
        assert forall|j: int| 0 <= j < before.len() implies (#[trigger] tree.nodes()[j]).parent
            == before[j].parent && tree.nodes()[j].edge_index == before[j].edge_index
            && tree.nodes()[j].edges@.len() == before[j].edges@.len() by {
            assert(place_kept(before[j], tree.nodes()[j]));
        }
        lemma_settled_one(before, tree.nodes(), h, *old(state), *state, items, i);
    }
}

/// One entry has been settled: its visits are no longer under way.
pub open spec fn settled<S: Scalar>(
    before: Seq<Node<S>>,
    after: Seq<Node<S>>,
    head: int,
    item: NodeToProcess<S>,
) -> bool {
    &&& before.len() <= after.len()
    &&& forall|j: int|
        0 <= j < before.len() ==> (#[trigger] after[j]).parent == before[j].parent
    &&& forall|x: int|
        0 <= x < before.len() ==> (#[trigger] after[x]).n_in_flight == before[x].n_in_flight
            - entry_load(before, head, x)(item)
    &&& forall|x: int|
        0 <= x < before.len() ==> (#[trigger] after[x]).n == before[x].n + (if item.is_collision {
            0
        } else {
            entry_load(before, head, x)(item)
        })
    &&& forall|x: int|
        before.len() <= x < after.len() ==> (#[trigger] after[x]).n_in_flight == 0
}

/// The entries of a batch that stay after one round: those that wait for the
/// network.
pub open spec fn waiting_entries<S>(items: Seq<NodeToProcess<S>>) -> Seq<NodeToProcess<S>> {
    items.filter(|item: NodeToProcess<S>| !item.is_collision && !item.ooo_completed)
}

/// The entries of a batch that are complete already.
pub open spec fn early_entries<S>() -> spec_fn(NodeToProcess<S>) -> int {
    |item: NodeToProcess<S>|
        if !item.is_collision && item.ooo_completed {
            1
        } else {
            0
        }
}

/// What settling a round changes.
pub struct Round<S> {
    pub moment: Moment<S>,
    pub items: Seq<NodeToProcess<S>>,
    pub gather: GatherState,
}

/// No node has more visits under way than before, and new nodes have none.
pub open spec fn fewer_in_flight<S>(before: Seq<Node<S>>, after: Seq<Node<S>>) -> bool {
    &&& before.len() <= after.len()
    &&& forall|x: int|
        0 <= x < after.len() ==> (#[trigger] after[x]).n_in_flight <= (if x < before.len() {
            before[x].n_in_flight
        } else {
            0
        })
}

impl<S: Scalar> Settling<S> {
    /// Whether the completed entries and the collisions of a round left a batch, the last
    /// first; nothing happens where no entry is complete.
    pub open spec fn is_reconciled(self, new_start: int, s: Round<S>, t: Round<S>) -> bool {
        let round = s.items.skip(new_start);
        let early = sum_by(round, early_entries::<S>());
        &&& t.gather.collisions_left == s.gather.collisions_left
        &&& t.gather.number_out_of_order == s.gather.number_out_of_order + early
        &&& t.gather.minibatch_size == (if s.gather.minibatch_size < early {
            0
        } else {
            s.gather.minibatch_size - early
        })
        &&& if early > 0 {
            &&& t.items == s.items.take(new_start) + waiting_entries(round)
            &&& self.are_settled(true, round.reverse(), s.moment, t.moment)
        } else {
            t.items == s.items && t.moment == s.moment
        }
    }
}

/// Takes the completed entries and the collisions of a round out of a batch: the
/// former are carried back to the root, the latter taken back. Only entries that
/// wait for the network stay. Nothing happens where no entry is complete.
pub fn reconcile_out_of_order<S: Scalar>(
    tree: &mut NodeTree<S>,
    state: &mut WorkerSearchState,
    params: &SearchParams<S>,
    minibatch: &mut Vec<NodeToProcess<S>>,
    new_start: usize,
    gather: &mut GatherState,
    root_is_black: bool,
    root_move_filter: &Vec<Move>,
)
    requires
        old(tree).wf(),
        old(tree).current_head is Some,
        new_start <= old(minibatch)@.len(),
        can_settle(old(tree).nodes(), old(tree).head(), *old(state), old(minibatch)@),
        old(gather).number_out_of_order + old(minibatch)@.len() <= usize::MAX,
    ensures
        final(tree).wf(),
        *final(tree) == (NodeTree { arena: final(tree).arena, ..*old(tree) }),
        can_settle(final(tree).nodes(), final(tree).head(), *final(state), final(minibatch)@),
        final(state).shared_collisions == old(state).shared_collisions,
        final(state).total_batches == old(state).total_batches,
        final(minibatch)@.len() <= old(minibatch)@.len(),
        new_start <= final(minibatch)@.len(),
        fewer_in_flight(old(tree).nodes(), final(tree).nodes()),
        (Settling { params: *params, root_is_black, filter: root_move_filter@ }).is_reconciled(
            new_start as int,
            Round {
                moment: Moment { tree: *old(tree), state: *old(state) },
                items: old(minibatch)@,
                gather: *old(gather),
            },
            Round {
                moment: Moment { tree: *final(tree), state: *final(state) },
                items: final(minibatch)@,
                gather: *final(gather),
            },
        ),
{
    let ghost first = minibatch@.take(new_start as int);
    let ghost round = minibatch@.skip(new_start as int);
    let mut some_early: bool = false;
    let mut k: usize = new_start;
    while k < minibatch.len()
        invariant
            new_start <= k <= minibatch@.len(),
            *minibatch == *old(minibatch),
            some_early == exists|j: int|
                new_start <= j < k && !(#[trigger] minibatch@[j]).is_collision
                    && minibatch@[j].ooo_completed,
        decreases minibatch@.len() - k,
    {
        if !minibatch[k].is_collision && minibatch[k].ooo_completed {
            assert(!minibatch@[k as int].is_collision);
            some_early = true;
        }
        k += 1;
    }
    proof {
        lemma_early_exists(minibatch@, new_start as int, some_early);
        assert(first + round =~= minibatch@);
        lemma_sum_bounds(round, early_entries::<S>());
    }
    if !some_early {
        return;
    }
    let head: usize = tree.current_head();
    let mut i: usize = minibatch.len();
    let ghost mut settled_early: int = 0;
    let ghost all = minibatch@;
    let ghost settling = Settling { params: *params, root_is_black, filter: root_move_filter@ };
    let ghost begun = Moment { tree: *tree, state: *state };
    proof {
        assert(all.skip(i as int) =~= Seq::empty());
        assert(all.skip(i as int).reverse() =~= Seq::empty());
        settling.lemma_course_begins(true, begun);
        assert(waiting_entries(all.skip(i as int)) =~= Seq::empty()) by {
            reveal(Seq::filter);
        }
        assert(all =~= all.take(i as int) + waiting_entries(all.skip(i as int)));
        assert(sum_by(all.skip(i as int), early_entries::<S>()) == 0);
    }
    while i > new_start
        invariant
            tree.wf(),
            *tree == (NodeTree { arena: tree.arena, ..*old(tree) }),
            tree.current_head == Some(head),
            new_start <= i <= all.len(),
            all == old(minibatch)@,
            minibatch@ == all.take(i as int) + waiting_entries(all.skip(i as int)),
            can_settle(tree.nodes(), tree.head(), *state, minibatch@),
            state.shared_collisions == old(state).shared_collisions,
            state.total_batches == old(state).total_batches,
            gather.collisions_left == old(gather).collisions_left,
            0 <= settled_early <= all.len() - i,
            settled_early == sum_by(all.skip(i as int), early_entries::<S>()),
            gather.number_out_of_order == old(gather).number_out_of_order + settled_early,
            old(gather).number_out_of_order + all.len() <= usize::MAX,
            gather.minibatch_size == (if old(gather).minibatch_size < settled_early {
                0
            } else {
                old(gather).minibatch_size - settled_early
            }),
            fewer_in_flight(old(tree).nodes(), tree.nodes()),
            settling == (Settling { params: *params, root_is_black, filter: root_move_filter@ }),
            begun == (Moment { tree: *old(tree), state: *old(state) }),
            settling.are_settled(
                true,
                all.skip(i as int).reverse(),
                begun,
                Moment { tree: *tree, state: *state },
            ),
        decreases i,
    {
        i = i - 1;
        let ghost middle = Moment { tree: *tree, state: *state };
        let ghost batch = minibatch@;
        let ghost before = tree.nodes();
        let ghost h = tree.head();
        proof {
            lemma_waiting_front(all, i as int);
            assert(batch[i as int] == all[i as int]);
            assert(batch.remove(i as int) =~= all.take(i as int) + waiting_entries(
                all.skip(i + 1),
            ));
            lemma_entries_nonnegative(before, h, batch, 0);
        }
        if minibatch[i].is_collision {
            let node_idx: usize = minibatch[i].node_idx;
            let multivisit: u32 = minibatch[i].multivisit;
            proof {
                assert(batch[i as int].node_idx < before.len());
                lemma_attached_below(before, h, node_idx as int);
                assert forall|x: int| 0 <= x < before.len() implies (#[trigger] before[x]).n_in_flight
                    >= load_from(before, h, x, node_idx as int, multivisit as int, false) by {
                    lemma_entries_nonnegative(before, h, batch, x);
                    assert(before[x].n_in_flight >= sum_by(batch, entry_load(before, h, x)));
                    assert(entry_load(before, h, x)(batch[i as int]) == load_from(
                        before,
                        h,
                        x,
                        node_idx as int,
                        multivisit as int,
                        false,
                    ));
                }
            }
            cancel_collision(tree, node_idx, head, multivisit);
            let _removed = minibatch.remove(i);
            proof {
                assert forall|j: int| 0 <= j < before.len() implies (#[trigger] tree.nodes()[j]).parent
                    == before[j].parent && tree.nodes()[j].edge_index == before[j].edge_index
                    && tree.nodes()[j].edges@.len() == before[j].edges@.len()
                    && tree.nodes()[j].n == before[j].n by {
                    assert(tree.nodes()[j] == (Node {
                        n_in_flight: tree.nodes()[j].n_in_flight,
                        ..before[j]
                    }));
                }
                lemma_settled_one(before, tree.nodes(), h, *state, *state, batch, i as int);
            }
        } else if minibatch[i].ooo_completed {
            settle_visit(
                tree,
                state,
                params,
                &minibatch[i],
                root_is_black,
                root_move_filter,
                Ghost(batch),
                Ghost(i as int),
            );
            let _removed = minibatch.remove(i);
            if gather.minibatch_size > 0 {
                gather.minibatch_size = gather.minibatch_size - 1;
            }
            gather.number_out_of_order = gather.number_out_of_order + 1;
            proof {
                settled_early = settled_early + 1;
            }
        } else {
            assert(batch =~= all.take(i as int) + waiting_entries(all.skip(i as int)));
        }
        proof {
            assert forall|x: int| 0 <= x < tree.nodes().len() implies (
            #[trigger] tree.nodes()[x]).n_in_flight <= (if x < old(tree).nodes().len() {
                old(tree).nodes()[x].n_in_flight
            } else {
                0
            }) by {
                if x < before.len() {
                    lemma_entries_nonnegative(before, h, batch, x);
                    assert(entry_load(before, h, x)(batch[i as int]) >= 0);
                    assert(before[x].n_in_flight <= (if x < old(tree).nodes().len() {
                        old(tree).nodes()[x].n_in_flight
                    } else {
                        0
                    }));
                }
            }
            assert(all.skip(i as int).reverse() =~= all.skip(i + 1).reverse().push(
                all[i as int],
            ));
            settling.lemma_course_goes_on(
                true,
                all.skip(i + 1).reverse(),
                all[i as int],
                begun,
                middle,
                Moment { tree: *tree, state: *state },
            );
        }
    }
    assert(all.take(i as int) =~= first);
    assert(all.skip(i as int) =~= round);
}

proof fn lemma_attached_below<S>(nodes: Seq<Node<S>>, head: int, c: int)
    requires
        attached_up_to(nodes, head, c),
    ensures
        is_ancestor(nodes, head, c),
    decreases c,
{
    if c != head {
        lemma_attached_below(nodes, head, nodes[c].parent->Some_0 as int);
    }
}

/// Looking at one more entry from the back.
proof fn lemma_waiting_front<S>(all: Seq<NodeToProcess<S>>, i: int)
    requires
        0 <= i < all.len(),
    ensures
        waiting_entries(all.skip(i)) == (if !all[i].is_collision && !all[i].ooo_completed {
            seq![all[i]] + waiting_entries(all.skip(i + 1))
        } else {
            waiting_entries(all.skip(i + 1))
        }),
        sum_by(all.skip(i), early_entries::<S>()) == early_entries::<S>()(all[i]) + sum_by(
            all.skip(i + 1),
            early_entries::<S>(),
        ),
{
    let rest = all.skip(i + 1);
    let keep = |item: NodeToProcess<S>| !item.is_collision && !item.ooo_completed;
    assert(all.skip(i) =~= seq![all[i]] + rest);
    lemma_filter_front(all[i], rest, keep);
    lemma_sum_remove(all.skip(i), 0, early_entries::<S>());
    assert(all.skip(i).remove(0) =~= rest);
}

proof fn lemma_filter_front<T>(item: T, rest: Seq<T>, keep: spec_fn(T) -> bool)
    ensures
        (seq![item] + rest).filter(keep) == (if keep(item) {
            seq![item] + rest.filter(keep)
        } else {
            rest.filter(keep)
        }),
    decreases rest.len(),
{
    reveal(Seq::filter);
    let all = seq![item] + rest;
    if rest.len() == 0 {
        assert(all.drop_last() =~= Seq::empty());
        assert(all.last() == item);
        assert(all.drop_last().filter(keep) =~= Seq::empty());
        assert(rest.filter(keep) =~= Seq::empty());
        assert(all.filter(keep) =~= if keep(item) {
            seq![item] + rest.filter(keep)
        } else {
            rest.filter(keep)
        });
    } else {
        assert(all.drop_last() =~= seq![item] + rest.drop_last());
        assert(all.last() == rest.last());
        lemma_filter_front(item, rest.drop_last(), keep);
        assert(all.filter(keep) =~= if keep(item) {
            seq![item] + rest.filter(keep)
        } else {
            rest.filter(keep)
        });
    }
}

/// Some entry of a round is complete exactly where there is at least one.
proof fn lemma_early_exists<S>(all: Seq<NodeToProcess<S>>, from: int, some_early: bool)
    requires
        0 <= from <= all.len(),
        some_early == exists|j: int|
            from <= j < all.len() && !(#[trigger] all[j]).is_collision && all[j].ooo_completed,
    ensures
        some_early == (sum_by(all.skip(from), early_entries::<S>()) > 0),
        sum_by(all.skip(from), early_entries::<S>()) >= 0,
{
    let round = all.skip(from);
    lemma_sum_bounds(round, early_entries::<S>());
    if some_early {
        let j = choose|j: int|
            from <= j < all.len() && !(#[trigger] all[j]).is_collision && all[j].ooo_completed;
        assert(round[j - from] == all[j]);
    } else {
        let none = |item: NodeToProcess<S>| 0int;
        assert forall|k: int| 0 <= k < round.len() implies early_entries::<S>()(#[trigger] round[k])
            == none(round[k]) by {
            assert(round[k] == all[from + k]);
        }
        lemma_sum_same(round, early_entries::<S>(), none);
        lemma_sum_zero(round, none);
    }
}

proof fn lemma_sum_zero<T>(items: Seq<T>, f: spec_fn(T) -> int)
    requires
        forall|item: T| #[trigger] f(item) == 0,
    ensures
        sum_by(items, f) == 0,
    decreases items.len(),
{
    if items.len() > 0 {
        lemma_sum_zero(items.drop_last(), f);
    }
}


/// The visits of an entry that is a collision, when `left` visits may still collide:
/// it grows up to its bound.
pub open spec fn grown_visits<S>(item: NodeToProcess<S>, left: int) -> int {
    let allowed = if left < 0 {
        0
    } else {
        left
    };
    let desired = if item.maxvisit < allowed {
        item.maxvisit as int
    } else {
        allowed
    };
    if desired > item.multivisit {
        desired
    } else {
        item.multivisit as int
    }
}

/// How many visits may still collide, and whether gathering is over, once the
/// entries from `from` up to `k` have been looked at.
pub open spec fn collisions_after<S>(
    items: Seq<NodeToProcess<S>>,
    from: int,
    k: int,
    left: int,
    stop: bool,
) -> (int, bool)
    decreases k - from,
{
    if k <= from {
        (left, false)
    } else {
        let (before, over) = collisions_after(items, from, k - 1, left, stop);
        if over || !items[k - 1].is_collision {
            (before, over)
        } else {
            let after = before - grown_visits(items[k - 1], before);
            (after, after <= 0 || stop)
        }
    }
}

proof fn lemma_collisions_over<S>(
    items: Seq<NodeToProcess<S>>,
    from: int,
    k: int,
    to: int,
    left: int,
    stop: bool,
)
    requires
        from <= k <= to,
        collisions_after(items, from, k, left, stop).1,
    ensures
        collisions_after(items, from, to, left, stop) == collisions_after(
            items,
            from,
            k,
            left,
            stop,
        ),
    decreases to - k,
{
    if k < to {
        lemma_collisions_over(items, from, k, to - 1, left, stop);
    }
}

/// The entry that a collision becomes.
pub open spec fn grown_entry<S>(
    items: Seq<NodeToProcess<S>>,
    from: int,
    k: int,
    left: int,
    stop: bool,
) -> NodeToProcess<S> {
    let (before, over) = collisions_after(items, from, k, left, stop);
    if k < from || over || !items[k].is_collision {
        items[k]
    } else {
        NodeToProcess { multivisit: grown_visits(items[k], before) as u32, ..items[k] }
    }
}

/// Whether the collisions of a round were charged to the visits that may collide, and each
/// grew up to its bound while some were left. `over` says that gathering is over.
pub open spec fn is_charged<S: Scalar>(
    new_start: int,
    stop: bool,
    nodes: Seq<Node<S>>,
    items: Seq<NodeToProcess<S>>,
    gather: GatherState,
    nodes_after: Seq<Node<S>>,
    items_after: Seq<NodeToProcess<S>>,
    gather_after: GatherState,
    head: int,
    over: bool,
) -> bool {
    let left = gather.collisions_left as int;
    &&& only_in_flight(nodes, nodes_after)
    &&& (gather_after.collisions_left as int, over) == collisions_after(
        items,
        new_start,
        items.len() as int,
        left,
        stop,
    )
    &&& items_after == Seq::new(
        items.len(),
        |k: int| grown_entry(items, new_start, k, left, stop),
    )
    &&& gather_after.minibatch_size == gather.minibatch_size
    &&& gather_after.number_out_of_order == gather.number_out_of_order
    &&& forall|x: int|
        0 <= x < nodes.len() ==> (#[trigger] nodes_after[x]).n_in_flight - sum_by(
            items_after,
            entry_load(nodes, head, x),
        ) == nodes[x].n_in_flight - sum_by(items, entry_load(nodes, head, x))
}

/// Charges the collisions of a round to the visits that may collide, and lets each
/// grow up to its bound while some are left. Returns whether gathering is over.
pub fn charge_collisions<S: Scalar>(
    tree: &mut NodeTree<S>,
    minibatch: &mut Vec<NodeToProcess<S>>,
    new_start: usize,
    gather: &mut GatherState,
    stop: bool,
) -> (r: bool)
    requires
        old(tree).wf(),
        old(tree).current_head is Some,
        new_start <= old(minibatch)@.len(),
        old(gather).collisions_left >= 0,
        forall|k: int|
            0 <= k < old(minibatch)@.len() ==> {
                &&& (#[trigger] old(minibatch)@[k]).node_idx < old(tree).nodes().len()
                &&& old(minibatch)@[k].multivisit <= i32::MAX
                &&& is_ancestor(
                    old(tree).nodes(),
                    old(tree).head(),
                    old(minibatch)@[k].node_idx as int,
                )
            },
        forall|x: int|
            0 <= x < old(tree).nodes().len() ==> (#[trigger] old(tree).nodes()[x]).n_in_flight
                + old(gather).collisions_left <= u32::MAX,
    ensures
        final(tree).wf(),
        *final(tree) == (NodeTree { arena: final(tree).arena, ..*old(tree) }),
        only_in_flight(old(tree).nodes(), final(tree).nodes()),
        is_charged(
            new_start as int,
            stop,
            old(tree).nodes(),
            old(minibatch)@,
            *old(gather),
            final(tree).nodes(),
            final(minibatch)@,
            *final(gather),
            old(tree).head(),
            r,
        ),
{
    let ghost items = minibatch@;
    let ghost left0 = gather.collisions_left as int;
    let ghost from = new_start as int;
    let ghost before = tree.nodes();
    let ghost h = tree.head();
    let head: usize = tree.current_head();
    let mut index: usize = new_start;
    let mut over: bool = false;
    proof {
        assert forall|k: int| 0 <= k < items.len() implies #[trigger] items[k] == (if k < from {
            grown_entry(items, from, k, left0, stop)
        } else {
            items[k]
        }) by {}
    }
    while index < minibatch.len() && !over
        invariant
            tree.wf(),
            *tree == (NodeTree { arena: tree.arena, ..*old(tree) }),
            before == old(tree).nodes(),
            items == old(minibatch)@,
            from == new_start,
            h == old(tree).head(),
            tree.current_head == Some(head),
            h == head,
            left0 == old(gather).collisions_left,
            left0 >= 0,
            new_start <= index <= items.len(),
            minibatch@.len() == items.len(),
            gather.minibatch_size == old(gather).minibatch_size,
            gather.number_out_of_order == old(gather).number_out_of_order,
            (gather.collisions_left as int, over) == collisions_after(
                items,
                from,
                index as int,
                left0,
                stop,
            ),
            !over ==> gather.collisions_left >= 0,
            gather.collisions_left <= left0,
            only_in_flight(before, tree.nodes()),
            forall|k: int|
                0 <= k < items.len() ==> {
                    &&& (#[trigger] items[k]).node_idx < before.len()
                    &&& items[k].multivisit <= i32::MAX
                    &&& is_ancestor(before, h, items[k].node_idx as int)
                },
            forall|k: int|
                0 <= k < items.len() ==> #[trigger] minibatch@[k] == (if k < index {
                    grown_entry(items, from, k, left0, stop)
                } else {
                    items[k]
                }),
            !over ==> forall|x: int|
                0 <= x < before.len() ==> (#[trigger] tree.nodes()[x]).n_in_flight
                    + gather.collisions_left <= u32::MAX,
            forall|x: int|
                0 <= x < before.len() ==> (#[trigger] tree.nodes()[x]).n_in_flight - sum_by(
                    minibatch@,
                    entry_load(before, h, x),
                ) == before[x].n_in_flight - sum_by(items, entry_load(before, h, x)),
        decreases items.len() - index,
    {
        let ghost batch = minibatch@;
        let ghost k = index as int;
        proof {
            assert(batch[k] == items[k]);
            assert(items[k].node_idx < before.len());
        }
        if minibatch[index].is_collision {
            let ghost left = gather.collisions_left as int;
            let ghost middle = tree.nodes();
            let left_now: u32 = gather.collisions_left as u32;
            let maxvisit: u32 = minibatch[index].maxvisit;
            let multivisit: u32 = minibatch[index].multivisit;
            let node_idx: usize = minibatch[index].node_idx;
            let desired: u32 = if maxvisit < left_now {
                maxvisit
            } else {
                left_now
            };
            let extra: u32 = desired.saturating_sub(multivisit);
            let grown: u32 = multivisit + extra;
            minibatch[index].multivisit = grown;
            proof {
                assert(minibatch@ =~= batch.update(
                    k,
                    NodeToProcess { multivisit: grown, ..items[k] },
                ));
                assert forall|j: int| 0 <= j < before.len() implies (#[trigger] before[j]).parent
                    == middle[j].parent by {
                    assert(middle[j] == (Node { n_in_flight: middle[j].n_in_flight, ..before[j] }));
                }
                lemma_ancestor_stable(before, middle, h, node_idx as int);
                assert forall|x: int| 0 <= x < middle.len() implies (#[trigger] middle[x]).n_in_flight
                    + load_from(middle, h, x, node_idx as int, extra as int, false) <= u32::MAX by {
                    assert(middle[x].n_in_flight + gather.collisions_left <= u32::MAX);
                }
            }
            if extra > 0 {
                extend_collision(tree, node_idx, head, extra);
            }
            gather.collisions_left = gather.collisions_left - grown as i32;
            over = gather.collisions_left <= 0 || stop;
            proof {
                assert forall|x: int| 0 <= x < before.len() implies (
                #[trigger] tree.nodes()[x]).n_in_flight - sum_by(
                    minibatch@,
                    entry_load(before, h, x),
                ) == before[x].n_in_flight - sum_by(items, entry_load(before, h, x)) && (
                tree.nodes()[x].n_in_flight <= middle[x].n_in_flight + extra) by {
                    lemma_sum_update(
                        batch,
                        k,
                        NodeToProcess { multivisit: grown, ..items[k] },
                        entry_load(before, h, x),
                    );
                    lemma_ancestor_stable(before, middle, h, x);
                    lemma_ancestor_stable(before, middle, x, node_idx as int);
                    assert(middle[x].n_in_flight - sum_by(batch, entry_load(before, h, x))
                        == before[x].n_in_flight - sum_by(items, entry_load(before, h, x)));
                }
                assert forall|j: int| 0 <= j < before.len() implies #[trigger] tree.nodes()[j] == (
                Node { n_in_flight: tree.nodes()[j].n_in_flight, ..before[j] }) by {
                    assert(middle[j] == (Node { n_in_flight: middle[j].n_in_flight, ..before[j] }));
                }
                if !over {
                    assert forall|x: int| 0 <= x < before.len() implies (
                    #[trigger] tree.nodes()[x]).n_in_flight + gather.collisions_left
                        <= u32::MAX by {
                        assert(middle[x].n_in_flight + left <= u32::MAX);
                        assert(tree.nodes()[x].n_in_flight <= middle[x].n_in_flight + extra);
                    }
                }
            }
        }
        index += 1;
    }
    proof {
        if over {
            lemma_collisions_over(items, from, index as int, items.len() as int, left0, stop);
        }
        assert forall|k: int| 0 <= k < items.len() implies minibatch@[k] == #[trigger] grown_entry(
            items,
            from,
            k,
            left0,
            stop,
        ) by {
            assert(minibatch@[k] == minibatch@[k]);
            if k >= index {
                lemma_collisions_over(items, from, index as int, k, left0, stop);
            }
        }
        assert(minibatch@ =~= Seq::new(
            items.len(),
            |k: int| grown_entry(items, from, k, left0, stop),
        ));
    }
    over
}

/// Settles a round: completed entries and collisions beside them leave the batch, and the
/// collisions that stay are charged. Returns whether gathering is over.
pub fn settle_round<S: Scalar>(
    tree: &mut NodeTree<S>,
    state: &mut WorkerSearchState,
    params: &SearchParams<S>,
    minibatch: &mut Vec<NodeToProcess<S>>,
    new_start: usize,
    gather: &mut GatherState,
    root_is_black: bool,
    root_move_filter: &Vec<Move>,
) -> (r: bool)
    requires
        old(tree).wf(),
        old(tree).current_head is Some,
        new_start <= old(minibatch)@.len(),
        can_settle(old(tree).nodes(), old(tree).head(), *old(state), old(minibatch)@),
        old(gather).number_out_of_order + old(minibatch)@.len() <= usize::MAX,
        old(gather).collisions_left >= 0,
        forall|k: int|
            0 <= k < old(minibatch)@.len() ==> (#[trigger] old(minibatch)@[k]).multivisit
                <= i32::MAX,
        forall|x: int|
            0 <= x < old(tree).nodes().len() ==> (#[trigger] old(tree).nodes()[x]).n_in_flight + old(
                gather,
            ).collisions_left <= u32::MAX,
    ensures
        final(tree).wf(),
        *final(tree) == (NodeTree { arena: final(tree).arena, ..*old(tree) }),
        exists|middle: Round<S>|
            {
                &&& #[trigger] (Settling {
                    params: *params,
                    root_is_black,
                    filter: root_move_filter@,
                }).is_reconciled(
                    new_start as int,
                    Round {
                        moment: Moment { tree: *old(tree), state: *old(state) },
                        items: old(minibatch)@,
                        gather: *old(gather),
                    },
                    middle,
                )
                &&& is_charged(
                    new_start as int,
                    middle.moment.state.stop,
                    middle.moment.tree.nodes(),
                    middle.items,
                    middle.gather,
                    final(tree).nodes(),
                    final(minibatch)@,
                    *final(gather),
                    old(tree).head(),
                    r,
                )
                &&& *final(state) == middle.moment.state
            },
{
    let ghost settling = Settling { params: *params, root_is_black, filter: root_move_filter@ };
    let ghost first = Round {
        moment: Moment { tree: *tree, state: *state },
        items: minibatch@,
        gather: *gather,
    };
    reconcile_out_of_order(
        tree,
        state,
        params,
        minibatch,
        new_start,
        gather,
        root_is_black,
        root_move_filter,
    );
    let ghost middle = Round {
        moment: Moment { tree: *tree, state: *state },
        items: minibatch@,
        gather: *gather,
    };
    proof {
        assert(settling.is_reconciled(new_start as int, first, middle));
        assert forall|k: int| 0 <= k < minibatch@.len() implies {
            &&& (#[trigger] minibatch@[k]).node_idx < tree.nodes().len()
            &&& minibatch@[k].multivisit <= i32::MAX
            &&& is_ancestor(tree.nodes(), tree.head(), minibatch@[k].node_idx as int)
        } by {
            lemma_attached_below(tree.nodes(), tree.head(), minibatch@[k].node_idx as int);
            lemma_waiting_are_entries(first.items, new_start as int, minibatch@[k]);
        }
        assert forall|x: int| 0 <= x < tree.nodes().len() implies (
        #[trigger] tree.nodes()[x]).n_in_flight + gather.collisions_left <= u32::MAX by {
            if x < old(tree).nodes().len() {
                assert(old(tree).nodes()[x].n_in_flight + old(gather).collisions_left <= u32::MAX);
            }
        }
    }
    let stop: bool = state.stop;
    charge_collisions(tree, minibatch, new_start, gather, stop)
}

proof fn lemma_filtered_is_in<T>(items: Seq<T>, keep: spec_fn(T) -> bool, k: int)
    requires
        0 <= k < items.filter(keep).len(),
    ensures
        items.contains(items.filter(keep)[k]),
    decreases items.len(),
{
    reveal(Seq::filter);
    let fewer = items.drop_last();
    if items.len() > 0 {
        if k < fewer.filter(keep).len() {
            lemma_filtered_is_in(fewer, keep, k);
            let j = choose|j: int| 0 <= j < fewer.len() && fewer[j] == fewer.filter(keep)[k];
            assert(items[j] == items.filter(keep)[k]);
        } else {
            assert(items[items.len() - 1] == items.filter(keep)[k]);
        }
    }
}

/// What stays in a batch was in it before.
proof fn lemma_waiting_are_entries<S>(
    items: Seq<NodeToProcess<S>>,
    new_start: int,
    item: NodeToProcess<S>,
)
    requires
        0 <= new_start <= items.len(),
    ensures
        (items.take(new_start) + waiting_entries(items.skip(new_start))).contains(item)
            ==> items.contains(item),
{
    let round = items.skip(new_start);
    let kept = items.take(new_start) + waiting_entries(round);
    if kept.contains(item) {
        let k = choose|k: int| 0 <= k < kept.len() && kept[k] == item;
        if k < new_start {
            assert(items[k] == item);
        } else {
            assert(waiting_entries(round)[k - new_start] == item);
            lemma_filtered_is_in(
                round,
                |item: NodeToProcess<S>| !item.is_collision && !item.ooo_completed,
                k - new_start,
            );
            let j = choose|j: int| 0 <= j < round.len() && round[j] == item;
            assert(items[new_start + j] == item);
        }
    }
}

/// The entries of a batch that are no collisions.
pub open spec fn visits_in<S>(items: Seq<NodeToProcess<S>>) -> Seq<NodeToProcess<S>> {
    items.filter(|item: NodeToProcess<S>| !item.is_collision)
}

/// Whether a batch advanced the search: collisions alone do not.
pub open spec fn is_work_done<S>(
    items: Seq<NodeToProcess<S>>,
    number_out_of_order: int,
) -> bool {
    number_out_of_order > 0 || visits_in(items).len() > 0
}

proof fn lemma_visits_front<S>(items: Seq<NodeToProcess<S>>, k: int)
    requires
        0 <= k < items.len(),
    ensures
        visits_in(items.skip(k)) == (if !items[k].is_collision {
            seq![items[k]] + visits_in(items.skip(k + 1))
        } else {
            visits_in(items.skip(k + 1))
        }),
{
    let keep = |item: NodeToProcess<S>| !item.is_collision;
    assert(items.skip(k) =~= seq![items[k]] + items.skip(k + 1));
    lemma_filter_front(items[k], items.skip(k + 1), keep);
}

/// Whether a batch advanced the search.
pub fn work_done<S: Scalar>(minibatch: &Vec<NodeToProcess<S>>, number_out_of_order: usize) -> (r: bool)
    ensures
        r == is_work_done(minibatch@, number_out_of_order as int),
{
    let mut k: usize = 0;
    assert(minibatch@.skip(0) =~= minibatch@);
    while k < minibatch.len()
        invariant
            k <= minibatch@.len(),
            visits_in(minibatch@) == visits_in(minibatch@.skip(k as int)),
        decreases minibatch@.len() - k,
    {
        proof {
            lemma_visits_front(minibatch@, k as int);
        }
        if !minibatch[k].is_collision {
            assert(visits_in(minibatch@).len() > 0);
            return true;
        }
        k += 1;
    }
    proof {
        assert(minibatch@.skip(k as int) =~= Seq::empty());
        reveal(Seq::filter);
    }
    number_out_of_order > 0
}

/// Counts the entries of a round that are no collisions as waiting for the network.
/// Returns how many there are.
pub fn count_picked<S: Scalar>(
    gather: &mut GatherState,
    minibatch: &Vec<NodeToProcess<S>>,
    new_start: usize,
) -> (picked: usize)
    requires
        new_start <= minibatch@.len(),
        old(gather).minibatch_size + minibatch@.len() <= usize::MAX,
    ensures
        picked == visits_in(minibatch@.skip(new_start as int)).len(),
        *final(gather) == (GatherState {
            minibatch_size: (old(gather).minibatch_size + picked) as usize,
            ..*old(gather)
        }),
{
    let mut picked: usize = 0;
    let mut k: usize = new_start;
    while k < minibatch.len()
        invariant
            new_start <= k <= minibatch@.len(),
            picked <= k - new_start,
            visits_in(minibatch@.skip(new_start as int)).len() == picked + visits_in(
                minibatch@.skip(k as int),
            ).len(),
        decreases minibatch@.len() - k,
    {
        proof {
            lemma_visits_front(minibatch@, k as int);
        }
        if !minibatch[k].is_collision {
            picked = picked + 1;
        }
        k += 1;
    }
    proof {
        assert(minibatch@.skip(k as int) =~= Seq::empty());
        reveal(Seq::filter);
    }
    gather.minibatch_size = gather.minibatch_size + picked;
    picked
}

/// Carries the results of a whole batch back to the root. Where the batch advanced
/// the search, the shared collisions are taken back and the batch is counted.
///
/// No visit stays under way: at every node those of the batch, and those of the
/// shared collisions, are gone afterwards.
pub fn do_backup_update<S: Scalar>(
    tree: &mut NodeTree<S>,
    state: &mut WorkerSearchState,
    params: &SearchParams<S>,
    minibatch: &Vec<NodeToProcess<S>>,
    number_out_of_order: usize,
    root_is_black: bool,
    root_move_filter: &Vec<Move>,
)
    requires
        old(tree).wf(),
        old(tree).current_head is Some,
        can_settle(
            old(tree).nodes(),
            old(tree).head(),
            *old(state),
            visits_in(minibatch@),
        ),
        old(state).total_batches < u64::MAX,
        forall|k: int|
            0 <= k < old(state).shared_collisions@.len() ==> {
                &&& (#[trigger] old(state).shared_collisions@[k]).0 < old(tree).nodes().len()
                &&& is_ancestor(
                    old(tree).nodes(),
                    old(tree).head(),
                    old(state).shared_collisions@[k].0 as int,
                )
            },
        forall|x: int|
            0 <= x < old(tree).nodes().len() ==> (#[trigger] old(tree).nodes()[x]).n_in_flight >= sum_by(
                visits_in(minibatch@),
                entry_load(old(tree).nodes(), old(tree).head(), x),
            ) + collisions_load(
                old(tree).nodes(),
                old(tree).head(),
                old(state).shared_collisions@,
                old(state).shared_collisions@.len() as int,
                x,
            ),
    ensures
        final(tree).wf(),
        *final(tree) == (NodeTree { arena: final(tree).arena, ..*old(tree) }),
        old(tree).nodes().len() <= final(tree).nodes().len(),
        final(state).total_playouts == old(state).total_playouts + sum_by(
            visits_in(minibatch@),
            entry_visits::<S>(),
        ),
        final(state).total_batches == old(state).total_batches + (if is_work_done(
            minibatch@,
            number_out_of_order as int,
        ) {
            1int
        } else {
            0
        }),
        is_work_done(minibatch@, number_out_of_order as int) ==> final(
            state).shared_collisions@.len() == 0,
        !is_work_done(minibatch@, number_out_of_order as int) ==> final(state).shared_collisions
            == old(state).shared_collisions,
        forall|x: int|
            0 <= x < old(tree).nodes().len() ==> (#[trigger] final(tree).nodes()[x]).n_in_flight
                == old(tree).nodes()[x].n_in_flight - sum_by(
                visits_in(minibatch@),
                entry_load(old(tree).nodes(), old(tree).head(), x),
            ) - (if is_work_done(minibatch@, number_out_of_order as int) {
                collisions_load(
                    old(tree).nodes(),
                    old(tree).head(),
                    old(state).shared_collisions@,
                    old(state).shared_collisions@.len() as int,
                    x,
                )
            } else {
                0
            }),
        forall|x: int|
            old(tree).nodes().len() <= x < final(tree).nodes().len() ==> (
            #[trigger] final(tree).nodes()[x]).n_in_flight == 0,
        exists|middle: Moment<S>|
            #[trigger] (Settling {
                params: *params,
                root_is_black,
                filter: root_move_filter@,
            }).are_settled(
                false,
                visits_in(minibatch@),
                Moment { tree: *old(tree), state: *old(state) },
                middle,
            ) && (if is_work_done(minibatch@, number_out_of_order as int) {
                &&& only_in_flight(middle.tree.nodes(), final(tree).nodes())
                &&& *final(state) == (WorkerSearchState {
                    shared_collisions: final(state).shared_collisions,
                    total_batches: (middle.state.total_batches + 1) as u64,
                    ..middle.state
                })
            } else {
                *final(tree) == middle.tree && *final(state) == middle.state
            }),
{
    let ghost before = tree.nodes();
    let ghost h = tree.head();
    let ghost settling = Settling { params: *params, root_is_black, filter: root_move_filter@ };
    let ghost begun = Moment { tree: *tree, state: *state };
    let ghost mut done: Seq<NodeToProcess<S>> = Seq::empty();
    let ghost shared = state.shared_collisions@;
    let ghost visits = visits_in(minibatch@);
    let head: usize = tree.current_head();
    let mut k: usize = 0;
    proof {
        assert(minibatch@.skip(0) =~= minibatch@);
        assert(done + visits =~= visits);
        settling.lemma_course_begins(false, begun);
    }
    while k < minibatch.len()
        invariant
            tree.wf(),
            *tree == (NodeTree { arena: tree.arena, ..*old(tree) }),
            before == old(tree).nodes(),
            h == old(tree).head(),
            tree.current_head == Some(head),
            h == head,
            visits == visits_in(minibatch@),
            k <= minibatch@.len(),
            can_settle(tree.nodes(), h, *state, visits_in(minibatch@.skip(k as int))),
            can_settle(before, h, *old(state), visits),
            before.len() <= tree.nodes().len(),
            forall|j: int|
                0 <= j < before.len() ==> (#[trigger] tree.nodes()[j]).parent == before[j].parent,
            forall|x: int|
                0 <= x < before.len() ==> (#[trigger] tree.nodes()[x]).n_in_flight == before[x].n_in_flight
                    - sum_by(visits, entry_load(before, h, x)) + sum_by(
                    visits_in(minibatch@.skip(k as int)),
                    entry_load(before, h, x),
                ),
            forall|x: int|
                before.len() <= x < tree.nodes().len() ==> (#[trigger] tree.nodes()[x]).n_in_flight
                    == 0,
            forall|j: int|
                0 <= j < visits_in(minibatch@.skip(k as int)).len() ==> (
                #[trigger] visits_in(minibatch@.skip(k as int))[j]).node_idx < before.len(),
            state.total_playouts + sum_by(
                visits_in(minibatch@.skip(k as int)),
                entry_visits::<S>(),
            ) == old(state).total_playouts + sum_by(visits, entry_visits::<S>()),
            state.shared_collisions == old(state).shared_collisions,
            state.total_batches == old(state).total_batches,
            settling == (Settling { params: *params, root_is_black, filter: root_move_filter@ }),
            begun == (Moment { tree: *old(tree), state: *old(state) }),
            done + visits_in(minibatch@.skip(k as int)) == visits,
            settling.are_settled(false, done, begun, Moment { tree: *tree, state: *state }),
        decreases minibatch@.len() - k,
    {
        let ghost rest = visits_in(minibatch@.skip(k as int));
        let ghost rest2 = visits_in(minibatch@.skip(k + 1));
        proof {
            lemma_visits_front(minibatch@, k as int);
        }
        if !minibatch[k].is_collision {
            let ghost middle = tree.nodes();
            let ghost moment = Moment { tree: *tree, state: *state };
            let ghost item = minibatch@[k as int];
            proof {
                assert(rest[0] == item);
                assert(rest.remove(0) =~= rest2);
                lemma_sum_remove(rest, 0, entry_visits::<S>());
            }
            settle_visit(
                tree,
                state,
                params,
                &minibatch[k],
                root_is_black,
                root_move_filter,
                Ghost(rest),
                Ghost(0int),
            );
            proof {
                settling.lemma_course_goes_on(
                    false,
                    done,
                    item,
                    begun,
                    moment,
                    Moment { tree: *tree, state: *state },
                );
                assert(done.push(item) + rest2 =~= done + rest);
                done = done.push(item);
                let nodes = tree.nodes();
                assert forall|x: int| 0 <= x < before.len() implies (#[trigger] nodes[x]).n_in_flight
                    == before[x].n_in_flight - sum_by(visits, entry_load(before, h, x)) + sum_by(
                    rest2,
                    entry_load(before, h, x),
                ) by {
                    lemma_sum_remove(rest, 0, entry_load(before, h, x));
                    assert(middle[x].n_in_flight == before[x].n_in_flight - sum_by(
                        visits,
                        entry_load(before, h, x),
                    ) + sum_by(rest, entry_load(before, h, x)));
                    assert forall|j: int| 0 <= j < before.len() implies (#[trigger] before[j]).parent
                        == middle[j].parent by {
                        assert(middle[j].parent == before[j].parent);
                    }
                    lemma_ancestor_stable(before, middle, h, x);
                    lemma_ancestor_stable(before, middle, x, item.node_idx as int);
                    assert(entry_load(before, h, x)(item) == entry_load(middle, h, x)(item));
                }
                assert forall|x: int| before.len() <= x < nodes.len() implies (
                #[trigger] nodes[x]).n_in_flight == 0 by {
                    if x < middle.len() {
                        assert(middle[x].n_in_flight == 0);
                        assert(nodes[x].n_in_flight == middle[x].n_in_flight - entry_load(
                            middle,
                            h,
                            x,
                        )(item));
                        if is_ancestor(middle, x, item.node_idx as int) {
                            crate::classic::tree::lemma_ancestor_below(
                                middle,
                                x,
                                item.node_idx as int,
                            );
                        }
                    }
                }
                assert forall|j: int| 0 <= j < before.len() implies (#[trigger] nodes[j]).parent
                    == before[j].parent by {
                    assert(middle[j].parent == before[j].parent);
                }
                assert forall|j: int| 0 <= j < rest2.len() implies (#[trigger] rest2[j]).node_idx
                    < before.len() by {
                    assert(rest2[j] == rest[j + 1]);
                }
            }
        }
        k += 1;
    }
    proof {
        assert(minibatch@.skip(k as int) =~= Seq::empty());
        reveal(Seq::filter);
        assert(visits_in(minibatch@.skip(k as int)) =~= Seq::empty());
        assert(done =~= visits);
    }
    if work_done(minibatch, number_out_of_order) {
        let ghost middle = tree.nodes();
        proof {
            assert forall|j: int| 0 <= j < before.len() implies (#[trigger] before[j]).parent
                == middle[j].parent by {
                assert(middle[j].parent == before[j].parent);
            }
            assert forall|i: int| 0 <= i < shared.len() implies (#[trigger] shared[i]).0
                < middle.len() && is_ancestor(middle, h, shared[i].0 as int) by {
                lemma_ancestor_stable(before, middle, h, shared[i].0 as int);
            }
            assert forall|x: int| 0 <= x < middle.len() implies (#[trigger] middle[x]).n_in_flight
                >= collisions_load(middle, h, shared, shared.len() as int, x) && (x < before.len()
                ==> collisions_load(middle, h, shared, shared.len() as int, x) == collisions_load(
                before,
                h,
                shared,
                shared.len() as int,
                x,
            )) && (x >= before.len() ==> collisions_load(
                middle,
                h,
                shared,
                shared.len() as int,
                x,
            ) == 0) by {
                lemma_collisions_stable(before, middle, h, shared, shared.len() as int, x);
                if x < before.len() {
                    assert(before[x].n_in_flight >= sum_by(visits, entry_load(before, h, x))
                        + collisions_load(before, h, shared, shared.len() as int, x));
                }
            }
        }
        cancel_shared_collisions(state, tree, head);
        state.total_batches = state.total_batches + 1;
        proof {
            assert forall|x: int| before.len() <= x < tree.nodes().len() implies (
            #[trigger] tree.nodes()[x]).n_in_flight == 0 by {
                assert(middle[x].n_in_flight == 0);
            }
        }
    }
}

/// Shared collisions at older nodes weigh on older nodes alone, whatever was added
/// to the tree.
proof fn lemma_collisions_stable<S: Scalar>(
    before: Seq<Node<S>>,
    after: Seq<Node<S>>,
    head: int,
    shared: Seq<(usize, u32)>,
    k: int,
    x: int,
)
    requires
        before.len() <= after.len(),
        0 <= x < after.len(),
        forall|j: int| 0 <= j < before.len() ==> (#[trigger] before[j]).parent == after[j].parent,
        forall|i: int| 0 <= i < shared.len() ==> (#[trigger] shared[i]).0 < before.len(),
        k <= shared.len(),
    ensures
        x < before.len() ==> collisions_load(before, head, shared, k, x) == collisions_load(
            after,
            head,
            shared,
            k,
            x,
        ),
        x >= before.len() ==> collisions_load(after, head, shared, k, x) == 0,
    decreases k,
{
    if k > 0 {
        lemma_collisions_stable(before, after, head, shared, k - 1, x);
        let target = shared[k - 1].0 as int;
        if x < before.len() {
            lemma_ancestor_stable(before, after, head, x);
            lemma_ancestor_stable(before, after, x, target);
        } else if is_ancestor(after, x, target) {
            crate::classic::tree::lemma_ancestor_below(after, x, target);
        }
    }
}

/// What a walk from the head has put under way for the entries of a batch is what
/// settling these entries takes off again.
pub proof fn law_settling_matches_picking<S: Scalar>(
    nodes: Seq<Node<S>>,
    head: int,
    items: Seq<NodeToProcess<S>>,
    x: int,
)
    ensures
        sum_by(items, entry_load(nodes, head, x)) == (if is_counted(nodes, head, true, x) {
            items_load(nodes, items, items.len() as int, x)
        } else {
            0
        }),
    decreases items.len(),
{
    if items.len() > 0 {
        let rest = items.drop_last();
        law_settling_matches_picking(nodes, head, rest, x);
        crate::classic::loads::lemma_items_load_prefix(
            nodes,
            rest,
            items,
            rest.len() as int,
            x,
        );
        assert(items.last() == items[items.len() - 1]);
    }
}

} // verus!
