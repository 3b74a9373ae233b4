//! Accounting for visits under way: how many of them each node has to carry.
//!
//! A visit under way weighs on the node that it ends at and on every node above
//! it. Visits that collided at a node weigh on the nodes above it only.
use vstd::prelude::*;

use crate::classic::node::Node;
use crate::classic::tasks::{NodeToProcess, PickTask};
use crate::classic::tree::{is_ancestor, lemma_ancestor_stable};
use crate::scalar::Scalar;

verus! {

/// What `weight` visits to node `target` weigh on node `x`.
pub open spec fn load_at<S>(
    nodes: Seq<Node<S>>,
    x: int,
    target: int,
    weight: int,
    on_target: bool,
) -> int {
    if is_ancestor(nodes, x, target) && (on_target || x != target) {
        weight
    } else {
        0
    }
}

/// What the first `k` entries of a batch weigh on node `x`.
pub open spec fn items_load<S>(
    nodes: Seq<Node<S>>,
    items: Seq<NodeToProcess<S>>,
    k: int,
    x: int,
) -> int
    decreases k,
{
    if k <= 0 {
        0
    } else {
        items_load(nodes, items, k - 1, x) + load_at(
            nodes,
            x,
            items[k - 1].node_idx as int,
            items[k - 1].multivisit as int,
            !items[k - 1].is_collision,
        )
    }
}

/// The visits of the first `k` entries of a batch.
pub open spec fn items_total<S>(items: Seq<NodeToProcess<S>>, k: int) -> int
    decreases k,
{
    if k <= 0 {
        0
    } else {
        items_total(items, k - 1) + items[k - 1].multivisit
    }
}

/// What the first `k` gathering tasks weigh on node `x`.
pub open spec fn tasks_load<S>(
    nodes: Seq<Node<S>>,
    tasks: Seq<Option<PickTask<S>>>,
    k: int,
    x: int,
) -> int
    decreases k,
{
    if k <= 0 {
        0
    } else {
        tasks_load(nodes, tasks, k - 1, x) + (match tasks[k - 1] {
            Some(task) => match task.start {
                Some(start) => load_at(
                    nodes,
                    x,
                    start as int,
                    task.collision_limit as int,
                    true,
                ),
                None => 0,
            },
            None => 0,
        })
    }
}

/// The visits handed on by the first `k` tasks.
pub open spec fn tasks_total<S>(tasks: Seq<Option<PickTask<S>>>, k: int) -> int
    decreases k,
{
    if k <= 0 {
        0
    } else {
        tasks_total(tasks, k - 1) + (match tasks[k - 1] {
            Some(task) => match task.start {
                Some(start) => task.collision_limit as int,
                None => 0,
            },
            None => 0,
        })
    }
}

/// All parent links of `before` are found in `after`.
pub open spec fn same_parents<S>(before: Seq<Node<S>>, after: Seq<Node<S>>) -> bool {
    &&& before.len() <= after.len()
    &&& forall|j: int| 0 <= j < before.len() ==> (#[trigger] after[j]).parent == before[j].parent
}

pub proof fn lemma_load_stable<S>(
    before: Seq<Node<S>>,
    after: Seq<Node<S>>,
    x: int,
    target: int,
    weight: int,
    on_target: bool,
)
    requires
        same_parents(before, after),
        0 <= target < before.len(),
    ensures
        load_at(before, x, target, weight, on_target) == load_at(
            after,
            x,
            target,
            weight,
            on_target,
        ),
{
    assert forall|j: int| 0 <= j <= target implies (#[trigger] before[j]).parent
        == after[j].parent by {
        assert(after[j].parent == before[j].parent);
    }
    lemma_ancestor_stable(before, after, x, target);
}

/// The entries refer to nodes of the tree.
pub open spec fn items_in_tree<S>(nodes: Seq<Node<S>>, items: Seq<NodeToProcess<S>>) -> bool {
    forall|i: int| 0 <= i < items.len() ==> (#[trigger] items[i]).node_idx < nodes.len()
}

/// The tasks refer to nodes of the tree.
pub open spec fn tasks_in_tree<S>(nodes: Seq<Node<S>>, tasks: Seq<Option<PickTask<S>>>) -> bool {
    forall|i: int|
        0 <= i < tasks.len() ==> (#[trigger] tasks[i] matches Some(task) ==> (task.start matches Some(
            start,
        ) ==> start < nodes.len()))
}

pub proof fn lemma_items_load_stable<S>(
    before: Seq<Node<S>>,
    after: Seq<Node<S>>,
    items: Seq<NodeToProcess<S>>,
    k: int,
    x: int,
)
    requires
        same_parents(before, after),
        items_in_tree(before, items),
        k <= items.len(),
    ensures
        items_load(before, items, k, x) == items_load(after, items, k, x),
    decreases k,
{
    if k > 0 {
        lemma_items_load_stable(before, after, items, k - 1, x);
        lemma_load_stable(
            before,
            after,
            x,
            items[k - 1].node_idx as int,
            items[k - 1].multivisit as int,
            !items[k - 1].is_collision,
        );
    }
}

pub proof fn lemma_tasks_load_stable<S>(
    before: Seq<Node<S>>,
    after: Seq<Node<S>>,
    tasks: Seq<Option<PickTask<S>>>,
    k: int,
    x: int,
)
    requires
        same_parents(before, after),
        tasks_in_tree(before, tasks),
        k <= tasks.len(),
    ensures
        tasks_load(before, tasks, k, x) == tasks_load(after, tasks, k, x),
    decreases k,
{
    if k > 0 {
        lemma_tasks_load_stable(before, after, tasks, k - 1, x);
        match tasks[k - 1] {
            Some(task) => match task.start {
                Some(start) => {
                    lemma_load_stable(
                        before,
                        after,
                        x,
                        start as int,
                        task.collision_limit as int,
                        true,
                    );
                },
                None => {},
            },
            None => {},
        }
    }
}

/// The load of the first entries depends on those alone.
pub proof fn lemma_items_load_prefix<S>(
    nodes: Seq<Node<S>>,
    a: Seq<NodeToProcess<S>>,
    b: Seq<NodeToProcess<S>>,
    k: int,
    x: int,
)
    requires
        k <= a.len(),
        k <= b.len(),
        forall|i: int| 0 <= i < k ==> a[i] == b[i],
    ensures
        items_load(nodes, a, k, x) == items_load(nodes, b, k, x),
        items_total(a, k) == items_total(b, k),
    decreases k,
{
    if k > 0 {
        lemma_items_load_prefix(nodes, a, b, k - 1, x);
    }
}

/// The load of the first tasks depends on those alone.
pub proof fn lemma_tasks_load_prefix<S>(
    nodes: Seq<Node<S>>,
    a: Seq<Option<PickTask<S>>>,
    b: Seq<Option<PickTask<S>>>,
    k: int,
    x: int,
)
    requires
        k <= a.len(),
        k <= b.len(),
        forall|i: int| 0 <= i < k ==> a[i] == b[i],
    ensures
        tasks_load(nodes, a, k, x) == tasks_load(nodes, b, k, x),
        tasks_total(a, k) == tasks_total(b, k),
    decreases k,
{
    if k > 0 {
        lemma_tasks_load_prefix(nodes, a, b, k - 1, x);
    }
}

/// Visits that a node has been given and that have not been placed yet: those
/// for the child behind each of the edges from `from` to `to`. A child that has
/// been expanded carries them itself.
pub open spec fn pending_load<S: Scalar>(
    nodes: Seq<Node<S>>,
    i: int,
    visits: Seq<u32>,
    from: int,
    to: int,
    x: int,
) -> int
    decreases to - from,
{
    if from >= to {
        0
    } else {
        pending_load(nodes, i, visits, from, to - 1, x) + edge_load(
            nodes,
            i,
            visits[to - 1],
            to - 1,
            x,
        )
    }
}

/// Whether visits to a node go on to its children.
pub open spec fn is_expanded<S: Scalar>(node: Node<S>) -> bool {
    node.n > 0 && !node.spec_is_terminal()
}

/// What visits for the child behind one edge weigh on node `x`.
pub open spec fn edge_load<S: Scalar>(
    nodes: Seq<Node<S>>,
    i: int,
    weight: u32,
    e: int,
    x: int,
) -> int {
    match nodes[i].children@[e] {
        Some(c) => load_at(nodes, x, c as int, weight as int, is_expanded(nodes[c as int])),
        None => 0,
    }
}

/// The visits for the children behind the edges from `from` to `to`.
pub open spec fn pending_total(visits: Seq<u32>, from: int, to: int) -> int
    decreases to - from,
{
    if from >= to {
        0
    } else {
        pending_total(visits, from, to - 1) + visits[to - 1]
    }
}

/// Visits are only kept for edges that have a child.
pub open spec fn visits_have_children<S>(node: Node<S>, visits: Seq<u32>) -> bool {
    &&& visits.len() <= node.children@.len()
    &&& forall|e: int| 0 <= e < visits.len() && #[trigger] visits[e] > 0 ==> node.children@[e] is Some
}

pub proof fn lemma_pending_bound<S: Scalar>(
    nodes: Seq<Node<S>>,
    i: int,
    visits: Seq<u32>,
    from: int,
    to: int,
    x: int,
)
    requires
        0 <= from,
        to <= visits.len(),
    ensures
        0 <= pending_load(nodes, i, visits, from, to, x) <= pending_total(visits, from, to),
    decreases to - from,
{
    if from < to {
        lemma_pending_bound(nodes, i, visits, from, to - 1, x);
    }
}

/// The pending visits split at any edge.
pub proof fn lemma_pending_split<S: Scalar>(
    nodes: Seq<Node<S>>,
    i: int,
    visits: Seq<u32>,
    from: int,
    middle: int,
    to: int,
    x: int,
)
    requires
        from <= middle <= to,
    ensures
        pending_load(nodes, i, visits, from, to, x) == pending_load(
            nodes,
            i,
            visits,
            from,
            middle,
            x,
        ) + pending_load(nodes, i, visits, middle, to, x),
        pending_total(visits, from, to) == pending_total(visits, from, middle) + pending_total(
            visits,
            middle,
            to,
        ),
    decreases to - middle,
{
    if middle < to {
        lemma_pending_split(nodes, i, visits, from, middle, to - 1, x);
    }
}

/// Edges without visits weigh nothing.
pub proof fn lemma_pending_zero<S: Scalar>(
    nodes: Seq<Node<S>>,
    i: int,
    visits: Seq<u32>,
    from: int,
    to: int,
    x: int,
)
    requires
        0 <= from,
        to <= visits.len(),
        forall|e: int| from <= e < to ==> visits[e] == 0,
    ensures
        pending_load(nodes, i, visits, from, to, x) == 0,
        pending_total(visits, from, to) == 0,
    decreases to - from,
{
    if from < to {
        lemma_pending_zero(nodes, i, visits, from, to - 1, x);
    }
}

/// Changing the visits of one edge changes the load by that edge alone.
pub proof fn lemma_pending_update<S: Scalar>(
    nodes: Seq<Node<S>>,
    i: int,
    visits: Seq<u32>,
    e: int,
    weight: u32,
    from: int,
    to: int,
    x: int,
)
    requires
        0 <= from <= e < to <= visits.len(),
    ensures
        pending_load(nodes, i, visits.update(e, weight), from, to, x) == pending_load(
            nodes,
            i,
            visits,
            from,
            to,
            x,
        ) + edge_load(nodes, i, weight, e, x) - edge_load(nodes, i, visits[e], e, x),
        pending_total(visits.update(e, weight), from, to) == pending_total(visits, from, to)
            + weight - visits[e],
    decreases to - from,
{
    if e < to - 1 {
        lemma_pending_update(nodes, i, visits, e, weight, from, to - 1, x);
    } else {
        lemma_pending_same(nodes, nodes, i, visits, visits.update(e, weight), from, to - 1, x);
    }
}

/// The pending load depends on the children of edges with visits: on which they
/// are, whether they are expanded, and what stands above them.
pub proof fn lemma_pending_same<S: Scalar>(
    before: Seq<Node<S>>,
    after: Seq<Node<S>>,
    i: int,
    a: Seq<u32>,
    b: Seq<u32>,
    from: int,
    to: int,
    x: int,
)
    requires
        0 <= from,
        to <= a.len(),
        to <= b.len(),
        forall|e: int| from <= e < to ==> a[e] == b[e],
        forall|e: int|
            from <= e < to && #[trigger] a[e] > 0 ==> before[i].children@[e] == after[i].children@[e] && (
            before[i].children@[e] matches Some(c) ==> {
                &&& is_expanded(before[c as int]) == is_expanded(after[c as int])
                &&& is_ancestor(before, x, c as int) == is_ancestor(after, x, c as int)
            }),
    ensures
        pending_load(before, i, a, from, to, x) == pending_load(after, i, b, from, to, x),
        pending_total(a, from, to) == pending_total(b, from, to),
    decreases to - from,
{
    if from < to {
        lemma_pending_same(before, after, i, a, b, from, to - 1, x);
        assert(a[to - 1] == b[to - 1]);
        if a[to - 1] == 0 {
            assert(edge_load(before, i, a[to - 1], to - 1, x) == 0);
            assert(edge_load(after, i, b[to - 1], to - 1, x) == 0);
        }
    }
}

/// Ancestry is transitive.
pub proof fn lemma_ancestor_transitive<S>(nodes: Seq<Node<S>>, a: int, b: int, c: int)
    requires
        is_ancestor(nodes, a, b),
        is_ancestor(nodes, b, c),
    ensures
        is_ancestor(nodes, a, c),
    decreases c,
{
    if b != c {
        lemma_ancestor_transitive(nodes, a, b, nodes[c].parent->Some_0 as int);
    }
}


/// No node carries more of some entries than all of these together.
pub proof fn lemma_items_load_between<S>(
    nodes: Seq<Node<S>>,
    items: Seq<NodeToProcess<S>>,
    k0: int,
    k: int,
    x: int,
)
    requires
        0 <= k0 <= k <= items.len(),
    ensures
        0 <= items_load(nodes, items, k, x) - items_load(nodes, items, k0, x) <= items_total(items, k)
            - items_total(items, k0),
    decreases k,
{
    if k0 < k {
        lemma_items_load_between(nodes, items, k0, k - 1, x);
    }
}

/// No node carries more of some tasks than all of these together.
pub proof fn lemma_tasks_load_between<S>(
    nodes: Seq<Node<S>>,
    tasks: Seq<Option<PickTask<S>>>,
    k0: int,
    k: int,
    x: int,
)
    requires
        0 <= k0 <= k <= tasks.len(),
    ensures
        0 <= tasks_load(nodes, tasks, k, x) - tasks_load(nodes, tasks, k0, x) <= tasks_total(tasks, k)
            - tasks_total(tasks, k0),
    decreases k,
{
    if k0 < k {
        lemma_tasks_load_between(nodes, tasks, k0, k - 1, x);
    }
}

/// The visits of one edge are among those of all edges.
pub proof fn lemma_pending_entry(visits: Seq<u32>, from: int, to: int, e: int)
    requires
        0 <= from <= e < to <= visits.len(),
    ensures
        visits[e] <= pending_total(visits, from, to),
    decreases to - from,
{
    if e < to - 1 {
        lemma_pending_entry(visits, from, to - 1, e);
    } else {
        lemma_pending_nonnegative(visits, from, to - 1);
    }
}

pub proof fn lemma_pending_nonnegative(visits: Seq<u32>, from: int, to: int)
    requires
        0 <= from,
        to <= visits.len(),
    ensures
        0 <= pending_total(visits, from, to),
    decreases to - from,
{
    if from < to {
        lemma_pending_nonnegative(visits, from, to - 1);
    }
}

} // verus!
