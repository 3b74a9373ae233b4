//! The walk through the tree that turns a budget of visits into the entries of a
//! batch.
use vstd::prelude::*;

use crate::classic::descent::{
    deeper, flight_of, given, has_choice, has_room_below, is_choice, is_new_leaf, needed_edges,
    spread_frame, spread_of, spread_visits, spreading, visits_child, balanced,
    lemma_items_load_newer, SelectionContext, child_visits,
};
use crate::classic::loads::{
    edge_load, is_expanded, items_in_tree, items_load, items_total, lemma_ancestor_transitive,
    lemma_items_load_between, lemma_items_load_prefix, lemma_items_load_stable,
    lemma_pending_bound, lemma_pending_entry, lemma_pending_nonnegative, lemma_pending_same,
    lemma_pending_split, lemma_pending_update, lemma_tasks_load_between, lemma_tasks_load_prefix,
    lemma_tasks_load_stable, pending_load, pending_total, same_parents, tasks_in_tree, tasks_load,
    tasks_total, visits_have_children,
};
use crate::classic::node::{Node, Terminal};
use crate::classic::params::SearchParams;
use crate::classic::picking::{fewer_visits, twofolds_are_leaves};
use crate::classic::placement::{
    behind, HandState, Shares, WalkState, Walking,
};
use crate::classic::tasks::{NodeToProcess, PickTask, PickTaskKind, PickTaskQueue};
use crate::classic::tree::{
    is_ancestor, lemma_ancestor_below, lemma_ancestor_stable, lemma_update_keeps_links,
    node_linked, well_linked, NodeTree,
};
use crate::error::EnginError;
use crate::position::{copy_moves, Move};
use crate::scalar::Scalar;

verus! {

/// The moves from node `root` down to node `c`.
pub open spec fn line_to<S>(nodes: Seq<Node<S>>, root: int, c: int) -> Seq<Move>
    decreases c,
{
    if c == root {
        Seq::empty()
    } else {
        match nodes[c].parent {
            Some(p) => if p < c {
                line_to(nodes, root, p as int).push(
                    nodes[p as int].edges@[nodes[c].edge_index as int].mv,
                )
            } else {
                Seq::empty()
            },
            None => Seq::empty(),
        }
    }
}

/// `b` is `a` after a walk: children may have been added, visits may be under way
/// and repetitions may have been revoked.
pub open spec fn kept<S: Scalar>(a: Node<S>, b: Node<S>) -> bool {
    &&& b == (Node {
        children: b.children,
        wl: b.wl,
        d: b.d,
        m: b.m,
        n: b.n,
        terminal: b.terminal,
        n_in_flight: b.n_in_flight,
        ..a
    })
    &&& b.n <= a.n
    &&& b.children@.len() == a.children@.len()
    &&& forall|e: int|
        0 <= e < a.children@.len() && #[trigger] a.children@[e] is Some ==> b.children@[e]
            == a.children@[e]
    &&& b.terminal == a.terminal || (b.terminal == Terminal::NonTerminal && b.n == 0)
}

/// What may have changed in the nodes while visits were placed below node `i`.
pub open spec fn walk_frame<S: Scalar>(
    start: Seq<Node<S>>,
    nodes: Seq<Node<S>>,
    i: int,
) -> bool {
    &&& same_parents(start, nodes)
    &&& forall|j: int| 0 <= j < start.len() ==> kept(start[j], #[trigger] nodes[j])
    &&& forall|j: int|
        0 <= j < start.len() && j != i && is_ancestor(start, j, i) ==> fewer_visits(
            start[j],
            #[trigger] nodes[j],
        )
    &&& forall|j: int|
        0 <= j < start.len() && !is_ancestor(start, j, i) && !is_ancestor(start, i, j)
            ==> #[trigger] nodes[j] == start[j]
    &&& forall|j: int|
        start.len() <= j < nodes.len() ==> is_new_leaf(#[trigger] nodes[j]) && is_ancestor(
            nodes,
            i,
            j,
        )
}

/// What a walk has weighed on node `x` so far: the entries and tasks that it has
/// added, and the visits that wait for the children of node `i` from edge `from`.
pub open spec fn account<S: Scalar>(
    nodes: Seq<Node<S>>,
    i: int,
    visits: Seq<u32>,
    from: int,
    items: Seq<NodeToProcess<S>>,
    k0: int,
    tasks: Seq<Option<PickTask<S>>>,
    t0: int,
    x: int,
) -> int {
    items_load(nodes, items, items.len() as int, x) - items_load(nodes, items, k0, x) + tasks_load(
        nodes,
        tasks,
        tasks.len() as int,
        x,
    ) - tasks_load(nodes, tasks, t0, x) + pending_load(
        nodes,
        i,
        visits,
        from,
        visits.len() as int,
        x,
    )
}

/// The visits under way at node `x` agree with the account of the walk. Nodes from
/// `i` upwards carried all `limit` visits before it began.
pub open spec fn in_balance<S: Scalar>(
    start: Seq<Node<S>>,
    nodes: Seq<Node<S>>,
    i: int,
    visits: Seq<u32>,
    from: int,
    items: Seq<NodeToProcess<S>>,
    k0: int,
    tasks: Seq<Option<PickTask<S>>>,
    t0: int,
    limit: int,
    x: int,
) -> bool {
    let load = account(nodes, i, visits, from, items, k0, tasks, t0, x);
    if is_ancestor(nodes, x, i) {
        load == limit && nodes[x].n_in_flight == start[x].n_in_flight
    } else {
        nodes[x].n_in_flight == flight_of(start, x) + load
    }
}

/// The state of a walk below node `i` that has `limit` visits to place.
pub open spec fn walking<S: Scalar>(
    start: Seq<Node<S>>,
    nodes: Seq<Node<S>>,
    i: int,
    visits: Seq<u32>,
    from: int,
    items: Seq<NodeToProcess<S>>,
    k0: int,
    tasks: Seq<Option<PickTask<S>>>,
    t0: int,
    limit: int,
) -> bool {
    &&& walk_frame(start, nodes, i)
    &&& items_in_tree(nodes, items)
    &&& tasks_in_tree(nodes, tasks)
    &&& 0 <= k0 <= items.len()
    &&& 0 <= t0 <= tasks.len()
    &&& 0 <= from <= visits.len()
    &&& visits_have_children(nodes[i], visits)
    &&& pending_total(visits, from, visits.len() as int) + items_total(items, items.len() as int)
        - items_total(items, k0) + tasks_total(tasks, tasks.len() as int) - tasks_total(tasks, t0)
        == limit
    &&& nodes.len() - start.len() <= items_total(items, items.len() as int) - items_total(items, k0)
    &&& forall|x: int|
        0 <= x < nodes.len() ==> #[trigger] in_balance(
            start,
            nodes,
            i,
            visits,
            from,
            items,
            k0,
            tasks,
            t0,
            limit,
            x,
        )
}

/// An entry of a walk from `root`: a visit, with the moves that lead to its node,
/// or visits that collided.
pub open spec fn item_reached<S: Scalar>(
    nodes: Seq<Node<S>>,
    root: int,
    base: Seq<Move>,
    item: NodeToProcess<S>,
) -> bool {
    &&& item.node_idx < nodes.len()
    &&& item.multivisit >= 1
    &&& !item.nn_queried && !item.is_cache_hit && !item.ooo_completed && item.eval_ticket is None
    &&& !item.is_collision ==> item.multivisit == 1 && item.maxvisit == 0
        && item.moves_to_visit@ == base + line_to(nodes, root, item.node_idx as int)
    &&& item.is_collision ==> item.moves_to_visit@.len() == 0
}

/// A task handed on by a walk from `root`, with the moves that lead to its subtree.
pub open spec fn task_reached<S: Scalar>(
    nodes: Seq<Node<S>>,
    root: int,
    base: Seq<Move>,
    task: PickTask<S>,
) -> bool {
    &&& task.kind == PickTaskKind::Gathering
    &&& task.start matches Some(c) && c < nodes.len() && task.moves_to_base@ == base + line_to(
        nodes,
        root,
        c as int,
    )
    &&& task.collision_limit >= 1
    &&& task.results@.len() == 0
    &&& !task.complete
}

/// All entries from `k0` and all tasks from `t0` were reached from `root`.
pub open spec fn all_reached<S: Scalar>(
    nodes: Seq<Node<S>>,
    root: int,
    base: Seq<Move>,
    items: Seq<NodeToProcess<S>>,
    k0: int,
    tasks: Seq<Option<PickTask<S>>>,
    t0: int,
) -> bool {
    &&& forall|k: int|
        k0 <= k < items.len() ==> item_reached(nodes, root, base, #[trigger] items[k])
    &&& forall|t: int|
        t0 <= t < tasks.len() ==> (#[trigger] tasks[t] matches Some(task) && task_reached(
            nodes,
            root,
            base,
            task,
        ))
}

pub proof fn lemma_line_stable<S: Scalar>(
    before: Seq<Node<S>>,
    after: Seq<Node<S>>,
    root: int,
    c: int,
)
    requires
        0 <= c < before.len() <= after.len(),
        forall|j: int| 0 <= j < before.len() ==> kept(before[j], #[trigger] after[j]),
    ensures
        line_to(before, root, c) == line_to(after, root, c),
    decreases c,
{
    assert(kept(before[c], after[c]));
    if c != root {
        match before[c].parent {
            Some(p) => {
                if p < c {
                    lemma_line_stable(before, after, root, p as int);
                    assert(kept(before[p as int], after[p as int]));
                }
            },
            None => {},
        }
    }
}

pub proof fn lemma_reached_stable<S: Scalar>(
    before: Seq<Node<S>>,
    after: Seq<Node<S>>,
    root: int,
    base: Seq<Move>,
    items: Seq<NodeToProcess<S>>,
    k0: int,
    tasks: Seq<Option<PickTask<S>>>,
    t0: int,
)
    requires
        before.len() <= after.len(),
        0 <= k0,
        0 <= t0,
        forall|j: int| 0 <= j < before.len() ==> kept(before[j], #[trigger] after[j]),
        all_reached(before, root, base, items, k0, tasks, t0),
    ensures
        all_reached(after, root, base, items, k0, tasks, t0),
{
    assert forall|k: int| k0 <= k < items.len() implies item_reached(
        after,
        root,
        base,
        #[trigger] items[k],
    ) by {
        assert(item_reached(before, root, base, items[k]));
        lemma_line_stable(before, after, root, items[k].node_idx as int);
    }
    assert forall|t: int| t0 <= t < tasks.len() implies (#[trigger] tasks[t] matches Some(task)
        && task_reached(after, root, base, task)) by {
        let task = tasks[t]->Some_0;
        assert(task_reached(before, root, base, task));
        lemma_line_stable(before, after, root, task.start->Some_0 as int);
    }
}

/// Tasks that refer to older nodes weigh nothing on a newer one.
pub proof fn lemma_tasks_load_newer<S>(
    nodes: Seq<Node<S>>,
    tasks: Seq<Option<PickTask<S>>>,
    k: int,
    x: int,
)
    requires
        k <= tasks.len(),
        forall|j: int|
            0 <= j < k ==> (#[trigger] tasks[j] matches Some(task) ==> (task.start matches Some(s)
                ==> s < x)),
    ensures
        tasks_load(nodes, tasks, k, x) == 0,
    decreases k,
{
    if k > 0 {
        lemma_tasks_load_newer(nodes, tasks, k - 1, x);
        match tasks[k - 1] {
            Some(task) => match task.start {
                Some(s) => {
                    if is_ancestor(nodes, x, s as int) {
                        lemma_ancestor_below(nodes, x, s as int);
                    }
                },
                None => {},
            },
            None => {},
        }
    }
}

/// Spreading visits over the edges of a node is the first step of a walk there.
proof fn lemma_spread_is_walk<S: Scalar>(
    start: Seq<Node<S>>,
    nodes: Seq<Node<S>>,
    i: int,
    visits: Seq<u32>,
    items: Seq<NodeToProcess<S>>,
    k0: int,
    tasks: Seq<Option<PickTask<S>>>,
    limit: int,
    depth: u16,
)
    requires
        well_linked(start),
        0 <= i < start.len(),
        spreading(start, nodes, i, visits, items, k0, limit, 0, depth),
        tasks_in_tree(start, tasks),
    ensures
        walking(
            start,
            nodes,
            i,
            visits,
            0,
            items,
            k0,
            tasks,
            tasks.len() as int,
            limit,
        ),
{
    assert forall|j: int| 0 <= j < start.len() implies kept(start[j], #[trigger] nodes[j]) by {
        if j == i {
        } else if is_ancestor(start, j, i) {
            assert(fewer_visits(start[j], nodes[j]));
        } else if start[j].parent == Some(i as usize) {
            assert(given(start[j], nodes[j]));
        } else {
            assert(nodes[j] == start[j]);
        }
    }
    assert forall|j: int|
        0 <= j < start.len() && !is_ancestor(start, j, i) && !is_ancestor(start, i, j) implies #[trigger] nodes[j]
        == start[j] by {
        assert(node_linked(start, j));
        if start[j].parent == Some(i as usize) {
            assert(is_ancestor(start, i, i));
            assert(is_ancestor(start, i, j));
        }
    }
    assert forall|j: int| start.len() <= j < nodes.len() implies is_new_leaf(#[trigger] nodes[j])
        && is_ancestor(nodes, i, j) by {
        assert(is_ancestor(nodes, i, i));
    }
    assert forall|x: int| 0 <= x < nodes.len() implies #[trigger] in_balance(
        start,
        nodes,
        i,
        visits,
        0,
        items,
        k0,
        tasks,
        tasks.len() as int,
        limit,
        x,
    ) by {
        assert(balanced(start, nodes, i, visits, items, k0, limit - 0, x));
    }
}

proof fn lemma_same_ancestors<S>(
    before: Seq<Node<S>>,
    after: Seq<Node<S>>,
    x: int,
    target: int,
)
    requires
        same_parents(before, after),
        0 <= target < before.len(),
    ensures
        is_ancestor(before, x, target) == is_ancestor(after, x, target),
{
    assert forall|j: int| 0 <= j <= target implies (#[trigger] before[j]).parent
        == after[j].parent by {
        assert(after[j].parent == before[j].parent);
    }
    lemma_ancestor_stable(before, after, x, target);
}

/// A walk below a child is part of a walk below its parent.
proof fn lemma_frame_of_child<S: Scalar>(
    start: Seq<Node<S>>,
    before: Seq<Node<S>>,
    after: Seq<Node<S>>,
    i: int,
    c: int,
)
    requires
        well_linked(before),
        0 <= i < start.len(),
        i < c < before.len(),
        before[c].parent == Some(i as usize),
        walk_frame(start, before, i),
        walk_frame(before, after, c),
    ensures
        walk_frame(start, after, i),
{
    assert forall|j: int| 0 <= j < start.len() implies (#[trigger] after[j]).parent
        == start[j].parent by {
        assert(before[j].parent == start[j].parent);
    }
    assert forall|j: int| 0 <= j < start.len() implies kept(start[j], #[trigger] after[j]) by {
        assert(kept(start[j], before[j]));
        assert(kept(before[j], after[j]));
        assert forall|e: int|
            0 <= e < start[j].children@.len() && #[trigger] start[j].children@[e] is Some implies after[j].children@[e]
            == start[j].children@[e] by {
            assert(before[j].children@[e] == start[j].children@[e]);
        }
    }
    assert forall|j: int| 0 <= j < start.len() && j != i && is_ancestor(start, j, i) implies fewer_visits(
        start[j],
        #[trigger] after[j],
    ) by {
        lemma_same_ancestors(start, before, j, i);
        lemma_ancestor_below(before, j, i);
        assert(fewer_visits(start[j], before[j]));
        assert(is_ancestor(before, j, c));
        assert(fewer_visits(before[j], after[j]));
    }
    assert forall|j: int|
        0 <= j < start.len() && !is_ancestor(start, j, i) && !is_ancestor(start, i, j) implies #[trigger] after[j]
        == start[j] by {
        lemma_same_ancestors(start, before, j, i);
        lemma_same_ancestors(start, before, i, j);
        assert(before[j] == start[j]);
        assert(is_ancestor(before, i, i));
        assert(is_ancestor(before, i, c));
        if is_ancestor(before, c, j) {
            lemma_ancestor_transitive(before, i, c, j);
        }
        assert(!is_ancestor(before, j, c));
    }
    lemma_same_ancestors(before, after, i, c);
    assert(is_ancestor(before, i, i));
    assert(is_ancestor(before, i, c));
    assert forall|j: int| start.len() <= j < after.len() implies is_new_leaf(#[trigger] after[j])
        && is_ancestor(after, i, j) by {
        if j < before.len() {
            assert(is_new_leaf(before[j]));
            assert(kept(before[j], after[j]));
            lemma_same_ancestors(before, after, i, j);
        } else {
            lemma_ancestor_transitive(after, i, c, j);
        }
    }
}


/// The pending visits begin with those for the first edge.
proof fn lemma_pending_first<S: Scalar>(
    nodes: Seq<Node<S>>,
    i: int,
    visits: Seq<u32>,
    from: int,
    x: int,
)
    requires
        0 <= from < visits.len(),
    ensures
        pending_load(nodes, i, visits, from, visits.len() as int, x) == edge_load(
            nodes,
            i,
            visits[from],
            from,
            x,
        ) + pending_load(nodes, i, visits, from + 1, visits.len() as int, x),
        pending_total(visits, from, visits.len() as int) == visits[from] + pending_total(
            visits,
            from + 1,
            visits.len() as int,
        ),
{
    lemma_pending_split(nodes, i, visits, from, from + 1, visits.len() as int, x);
    assert(pending_load(nodes, i, visits, from, from, x) == 0);
    assert(pending_total(visits, from, from) == 0);
}

/// Entering an edge without visits changes nothing.
proof fn lemma_skip_edge<S: Scalar>(
    start: Seq<Node<S>>,
    nodes: Seq<Node<S>>,
    i: int,
    visits: Seq<u32>,
    from: int,
    items: Seq<NodeToProcess<S>>,
    k0: int,
    tasks: Seq<Option<PickTask<S>>>,
    t0: int,
    limit: int,
)
    requires
        walking(start, nodes, i, visits, from, items, k0, tasks, t0, limit),
        from < visits.len(),
        visits[from] == 0,
    ensures
        walking(start, nodes, i, visits, from + 1, items, k0, tasks, t0, limit),
{
    lemma_pending_first(nodes, i, visits, from, 0);
    assert forall|x: int| 0 <= x < nodes.len() implies #[trigger] in_balance(
        start,
        nodes,
        i,
        visits,
        from + 1,
        items,
        k0,
        tasks,
        t0,
        limit,
        x,
    ) by {
        assert(in_balance(start, nodes, i, visits, from, items, k0, tasks, t0, limit, x));
        lemma_pending_first(nodes, i, visits, from, x);
    }
}

/// Visits for a leaf become an entry with as many collisions.
proof fn lemma_collide<S: Scalar>(
    start: Seq<Node<S>>,
    nodes: Seq<Node<S>>,
    i: int,
    visits: Seq<u32>,
    from: int,
    items: Seq<NodeToProcess<S>>,
    items2: Seq<NodeToProcess<S>>,
    k0: int,
    tasks: Seq<Option<PickTask<S>>>,
    t0: int,
    limit: int,
)
    requires
        walking(start, nodes, i, visits, from, items, k0, tasks, t0, limit),
        well_linked(nodes),
        0 <= i < nodes.len(),
        from < visits.len(),
        visits[from] > 0,
        nodes[i].children@[from] matches Some(c) && !is_expanded(nodes[c as int]),
        items2.len() == items.len() + 1,
        items2.drop_last() == items,
        items2.last().node_idx == nodes[i].children@[from]->Some_0,
        items2.last().is_collision,
        items2.last().multivisit == visits[from],
    ensures
        walking(start, nodes, i, visits, from + 1, items2, k0, tasks, t0, limit),
{
    assert(node_linked(nodes, i));
    assert forall|k: int| 0 <= k < items2.len() implies (#[trigger] items2[k]).node_idx
        < nodes.len() by {
        if k < items.len() {
            assert(items2[k] == items[k]);
        }
    }
    lemma_pending_first(nodes, i, visits, from, 0);
    lemma_items_load_prefix(nodes, items, items2, items.len() as int, 0);
    lemma_items_load_prefix(nodes, items, items2, k0, 0);
    assert forall|x: int| 0 <= x < nodes.len() implies #[trigger] in_balance(
        start,
        nodes,
        i,
        visits,
        from + 1,
        items2,
        k0,
        tasks,
        t0,
        limit,
        x,
    ) by {
        assert(in_balance(start, nodes, i, visits, from, items, k0, tasks, t0, limit, x));
        lemma_pending_first(nodes, i, visits, from, x);
        lemma_items_load_prefix(nodes, items, items2, items.len() as int, x);
        lemma_items_load_prefix(nodes, items, items2, k0, x);
    }
}

/// Handing the visits for an expanded child on to a task changes the account by
/// nothing.
proof fn lemma_hand_on<S: Scalar>(
    start: Seq<Node<S>>,
    nodes: Seq<Node<S>>,
    i: int,
    visits: Seq<u32>,
    e: int,
    items: Seq<NodeToProcess<S>>,
    k0: int,
    tasks: Seq<Option<PickTask<S>>>,
    tasks2: Seq<Option<PickTask<S>>>,
    t0: int,
    limit: int,
)
    requires
        walking(start, nodes, i, visits, 0, items, k0, tasks, t0, limit),
        well_linked(nodes),
        0 <= i < nodes.len(),
        0 <= e < visits.len(),
        visits[e] > 0,
        nodes[i].children@[e] matches Some(c) && is_expanded(nodes[c as int]),
        tasks2.len() == tasks.len() + 1,
        tasks2.drop_last() == tasks,
        tasks2.last() matches Some(task) && task.start == nodes[i].children@[e]
            && task.collision_limit == visits[e],
    ensures
        walking(start, nodes, i, visits.update(e, 0), 0, items, k0, tasks2, t0, limit),
{
    let visits2 = visits.update(e, 0);
    assert(node_linked(nodes, i));
    assert forall|t: int| 0 <= t < tasks2.len() implies (#[trigger] tasks2[t] matches Some(task)
        ==> (task.start matches Some(s) ==> s < nodes.len())) by {
        if t < tasks.len() {
            assert(tasks2[t] == tasks[t]);
        }
    }
    assert(visits_have_children(nodes[i], visits2)) by {
        assert forall|f: int| 0 <= f < visits2.len() && #[trigger] visits2[f] > 0 implies nodes[i].children@[f] is Some by {
            assert(visits[f] > 0);
        }
    }
    lemma_pending_update(nodes, i, visits, e, 0, 0, visits.len() as int, 0);
    lemma_tasks_load_prefix(nodes, tasks, tasks2, tasks.len() as int, 0);
    lemma_tasks_load_prefix(nodes, tasks, tasks2, t0, 0);
    assert forall|x: int| 0 <= x < nodes.len() implies #[trigger] in_balance(
        start,
        nodes,
        i,
        visits2,
        0,
        items,
        k0,
        tasks2,
        t0,
        limit,
        x,
    ) by {
        assert(in_balance(start, nodes, i, visits, 0, items, k0, tasks, t0, limit, x));
        lemma_pending_update(nodes, i, visits, e, 0, 0, visits.len() as int, x);
        lemma_tasks_load_prefix(nodes, tasks, tasks2, tasks.len() as int, x);
        lemma_tasks_load_prefix(nodes, tasks, tasks2, t0, x);
    }
}

/// After a walk below an expanded child its visits are placed.
proof fn lemma_walked_child<S: Scalar>(
    start: Seq<Node<S>>,
    before: Seq<Node<S>>,
    after: Seq<Node<S>>,
    i: int,
    visits: Seq<u32>,
    from: int,
    items: Seq<NodeToProcess<S>>,
    items2: Seq<NodeToProcess<S>>,
    k0: int,
    tasks: Seq<Option<PickTask<S>>>,
    tasks2: Seq<Option<PickTask<S>>>,
    t0: int,
    limit: int,
    inner: Seq<u32>,
)
    requires
        well_linked(before),
        0 <= i < start.len(),
        walking(start, before, i, visits, from, items, k0, tasks, t0, limit),
        from < visits.len(),
        visits[from] > 0,
        before[i].children@[from] matches Some(c) && is_expanded(before[c as int]),
        walking(
            before,
            after,
            before[i].children@[from]->Some_0 as int,
            inner,
            inner.len() as int,
            items2,
            items.len() as int,
            tasks2,
            tasks.len() as int,
            visits[from] as int,
        ),
        items2.take(items.len() as int) == items,
        tasks2.take(tasks.len() as int) == tasks,
    ensures
        walking(start, after, i, visits, from + 1, items2, k0, tasks2, t0, limit),
{
    let c = before[i].children@[from]->Some_0 as int;
    let len = visits.len() as int;
    assert(node_linked(before, i));
    lemma_frame_of_child(start, before, after, i, c);
    assert(is_ancestor(before, i, i));
    assert(is_ancestor(before, i, c));
    assert(fewer_visits(before[i], after[i]));
    assert forall|k: int| 0 <= k < items.len() implies items[k] == items2[k] by {
        assert(items2.take(items.len() as int)[k] == items2[k]);
    }
    assert forall|k: int| 0 <= k < tasks.len() implies tasks[k] == tasks2[k] by {
        assert(tasks2.take(tasks.len() as int)[k] == tasks2[k]);
    }
    lemma_pending_first(before, i, visits, from, 0);
    lemma_items_load_prefix(before, items, items2, items.len() as int, 0);
    lemma_items_load_prefix(before, items, items2, k0, 0);
    lemma_tasks_load_prefix(before, tasks, tasks2, tasks.len() as int, 0);
    lemma_tasks_load_prefix(before, tasks, tasks2, t0, 0);
    assert forall|f: int| from < f < len && #[trigger] visits[f] > 0 implies before[i].children@[f] is Some
        && after[i].children@[f] == before[i].children@[f]
        && after[before[i].children@[f]->Some_0 as int] == before[before[i].children@[f]->Some_0 as int] by {
        let d = before[i].children@[f]->Some_0 as int;
        assert(before[d].edge_index == f);
        assert(before[c].edge_index == from);
        if is_ancestor(before, d, i) {
            lemma_ancestor_below(before, d, i);
        }
        if is_ancestor(before, c, i) {
            lemma_ancestor_below(before, c, i);
        }
        assert(!is_ancestor(before, d, c));
        assert(!is_ancestor(before, c, d));
    }
    assert forall|x: int| 0 <= x < after.len() implies #[trigger] in_balance(
        start,
        after,
        i,
        visits,
        from + 1,
        items2,
        k0,
        tasks2,
        t0,
        limit,
        x,
    ) by {
        lemma_same_ancestors(before, after, x, i);
        lemma_same_ancestors(before, after, x, c);
        lemma_items_load_prefix(after, items, items2, items.len() as int, x);
        lemma_items_load_prefix(after, items, items2, k0, x);
        lemma_items_load_stable(before, after, items, items.len() as int, x);
        lemma_items_load_stable(before, after, items, k0, x);
        lemma_tasks_load_prefix(after, tasks, tasks2, tasks.len() as int, x);
        lemma_tasks_load_prefix(after, tasks, tasks2, t0, x);
        lemma_tasks_load_stable(before, after, tasks, tasks.len() as int, x);
        lemma_tasks_load_stable(before, after, tasks, t0, x);
        assert forall|f: int| from < f < len && #[trigger] visits[f] > 0 implies before[i].children@[f]
            == after[i].children@[f] && (before[i].children@[f] matches Some(d) ==> {
            &&& is_expanded(before[d as int]) == is_expanded(after[d as int])
            &&& is_ancestor(before, x, d as int) == is_ancestor(after, x, d as int)
        }) by {
            let d = before[i].children@[f]->Some_0 as int;
            lemma_same_ancestors(before, after, x, d);
        }
        lemma_pending_same(before, after, i, visits, visits, from + 1, len, x);
        lemma_pending_first(before, i, visits, from, x);
        assert(in_balance(
            before,
            after,
            c,
            inner,
            inner.len() as int,
            items2,
            items.len() as int,
            tasks2,
            tasks.len() as int,
            visits[from] as int,
            x,
        ));
        assert(is_ancestor(before, x, c) == (x == c || is_ancestor(before, x, i)));
        if x < before.len() {
            assert(in_balance(start, before, i, visits, from, items, k0, tasks, t0, limit, x));
        } else {
            if is_ancestor(after, x, i) {
                lemma_ancestor_below(after, x, i);
            }
            if is_ancestor(after, x, c) {
                lemma_ancestor_below(after, x, c);
            }
            lemma_items_load_newer(after, items, items.len() as int, x);
            lemma_items_load_newer(after, items, k0, x);
            lemma_tasks_load_newer(after, tasks, tasks.len() as int, x);
            lemma_tasks_load_newer(after, tasks, t0, x);
            lemma_pending_split(after, i, visits, 0, from + 1, len, x);
            lemma_pending_zero_newer(before, after, i, visits, from + 1, len, x);
        }
    }
}

/// Pending visits for older nodes weigh nothing on a newer one.
proof fn lemma_pending_zero_newer<S: Scalar>(
    before: Seq<Node<S>>,
    after: Seq<Node<S>>,
    i: int,
    visits: Seq<u32>,
    from: int,
    to: int,
    x: int,
)
    requires
        well_linked(before),
        0 <= i < before.len() <= x,
        0 <= from,
        to <= visits.len(),
        visits_have_children(before[i], visits),
        forall|f: int|
            from <= f < to && #[trigger] visits[f] > 0 ==> after[i].children@[f] == before[i].children@[f],
    ensures
        pending_load(after, i, visits, from, to, x) == 0,
    decreases to - from,
{
    if from < to {
        lemma_pending_zero_newer(before, after, i, visits, from, to - 1, x);
        assert(node_linked(before, i));
        if visits[to - 1] > 0 {
            assert(before[i].children@[to - 1] is Some);
            let c = before[i].children@[to - 1]->Some_0 as int;
            if is_ancestor(after, x, c) {
                lemma_ancestor_below(after, x, c);
            }
        }
    }
}

/// While a walk lasts the counters have room for the visits that wait for a child.
proof fn lemma_room_for_child<S: Scalar>(
    start: Seq<Node<S>>,
    nodes: Seq<Node<S>>,
    i: int,
    visits: Seq<u32>,
    from: int,
    items: Seq<NodeToProcess<S>>,
    k0: int,
    tasks: Seq<Option<PickTask<S>>>,
    t0: int,
    limit: int,
)
    requires
        well_linked(nodes),
        0 <= i < start.len(),
        limit < u32::MAX,
        walking(start, nodes, i, visits, from, items, k0, tasks, t0, limit),
        has_room_below(start, i, limit),
        from < visits.len(),
        visits[from] > 0,
        nodes[i].children@[from] matches Some(c) && is_expanded(nodes[c as int]),
    ensures
        has_room_below(nodes, nodes[i].children@[from]->Some_0 as int, visits[from] as int),
        nodes.len() + visits[from] <= start.len() + limit,
        visits[from] <= limit,
{
    let c = nodes[i].children@[from]->Some_0 as int;
    let len = visits.len() as int;
    assert(node_linked(nodes, i));
    lemma_pending_first(nodes, i, visits, from, 0);
    lemma_pending_nonnegative(visits, from + 1, len);
    lemma_items_load_between(nodes, items, k0, items.len() as int, 0);
    lemma_tasks_load_between(nodes, tasks, t0, tasks.len() as int, 0);
    assert forall|x: int| 0 <= x < nodes.len() && !is_ancestor(nodes, x, c) implies (
    #[trigger] nodes[x]).n + nodes[x].n_in_flight + visits[from] < u32::MAX by {
        assert(in_balance(start, nodes, i, visits, from, items, k0, tasks, t0, limit, x));
        assert(!is_ancestor(nodes, x, i));
        lemma_pending_first(nodes, i, visits, from, x);
        lemma_pending_bound(nodes, i, visits, from + 1, len, x);
        lemma_items_load_between(nodes, items, k0, items.len() as int, x);
        lemma_tasks_load_between(nodes, tasks, t0, tasks.len() as int, x);
        if x < start.len() {
            lemma_same_ancestors(start, nodes, x, i);
            assert(kept(start[x], nodes[x]));
            assert(start[x].n + start[x].n_in_flight + limit < u32::MAX);
        } else {
            assert(is_new_leaf(nodes[x]));
        }
    }
}


/// How far a walk has come.
pub struct Progress {
    /// The smallest number of visits after which some choice would have changed.
    pub max_limit: u32,
    /// Visits handed on to tasks.
    pub passed_off: u32,
    /// Visits that have become entries of the batch.
    pub completed: u32,
}

/// Every expanded node has an edge.
pub open spec fn has_edges<S: Scalar>(nodes: Seq<Node<S>>) -> bool {
    forall|j: int|
        0 <= j < nodes.len() && is_expanded(#[trigger] nodes[j]) ==> nodes[j].edges@.len() > 0
}

/// The roots of all gathering tasks are nodes of the tree.
pub open spec fn roots_in_tree<S: Scalar>(nodes: Seq<Node<S>>, queue: PickTaskQueue<S>) -> bool {
    forall|k: int|
        0 <= k < queue.gathering_roots@.len() ==> #[trigger] queue.gathering_roots@[k]
            < nodes.len()
}

/// Whether so many visits are worth a task of their own: more than the least, and
/// little enough to leave work for the walk itself.
pub open spec fn worth_a_task<S: Scalar>(
    params: SearchParams<S>,
    child_limit: int,
    collision_limit: int,
    assigned: int,
) -> bool {
    let remaining = collision_limit - assigned;
    let doubled = if remaining * 2 > u32::MAX {
        u32::MAX as int
    } else {
        remaining * 2
    };
    &&& child_limit > params.minimum_work_size_for_picking
    &&& child_limit < doubled / 3
    &&& child_limit + assigned < collision_limit - params.minimum_remaining_work_size_for_picking
}

fn is_worth_a_task<S: Scalar>(
    params: &SearchParams<S>,
    child_limit: u32,
    collision_limit: u32,
    assigned: u32,
) -> (r: bool)
    requires
        assigned <= collision_limit,
        child_limit + assigned <= collision_limit,
    ensures
        r == worth_a_task(
            *params,
            child_limit as int,
            collision_limit as int,
            assigned as int,
        ),
{
    let remaining: u64 = (collision_limit - assigned) as u64;
    let doubled: u64 = if remaining * 2 > u32::MAX as u64 {
        u32::MAX as u64
    } else {
        remaining * 2
    };
    child_limit > params.minimum_work_size_for_picking && (child_limit as u64) < doubled / 3
        && collision_limit >= params.minimum_remaining_work_size_for_picking && child_limit
        + assigned < collision_limit - params.minimum_remaining_work_size_for_picking
}

/// Hands the visits for an expanded child on to a task of its own, unless its
/// subtree overlaps that of another task or the queue is full.
pub fn hand_off_gathering_task<S: Scalar>(
    queue: &mut PickTaskQueue<S>,
    tree: &NodeTree<S>,
    path: &Vec<Move>,
    node_idx: usize,
    edge_idx: usize,
    task_base_depth: u16,
    visits: &mut Vec<u32>,
) -> (r: bool)
    requires
        old(queue).wf(),
        tree.wf(),
        roots_in_tree(tree.nodes(), *old(queue)),
        node_idx < tree.nodes().len(),
        edge_idx < old(visits)@.len(),
        old(visits)@[edge_idx as int] > 0,
        visits_have_children(tree.nodes()[node_idx as int], old(visits)@),
    ensures
        final(queue).wf(),
        roots_in_tree(tree.nodes(), *final(queue)),
        final(queue).tasks_taken == old(queue).tasks_taken,
        final(queue).completed_tasks == old(queue).completed_tasks,
        ({
            let child = tree.nodes()[node_idx as int].children@[edge_idx as int]->Some_0;
            &&& r == (is_expanded(tree.nodes()[child as int]) && old(queue).is_open() && forall|i: int|
                0 <= i < old(queue).gathering_roots@.len() ==> !crate::classic::tasks::overlap(
                    tree.nodes(),
                    #[trigger] old(queue).gathering_roots@[i] as int,
                    child as int,
                ))
            &&& r ==> {
                &&& final(visits)@ == old(visits)@.update(edge_idx as int, 0)
                &&& final(queue).gathering_roots@ == old(queue).gathering_roots@.push(child)
                &&& final(queue).tasks@.len() == old(queue).tasks@.len() + 1
                &&& final(queue).tasks@.drop_last() == old(queue).tasks@
                &&& final(queue).tasks@.last() matches Some(task) && {
                    &&& task.kind == PickTaskKind::Gathering
                    &&& task.start == Some(child)
                    &&& task.base_depth == task_base_depth
                    &&& task.collision_limit == old(visits)@[edge_idx as int]
                    &&& task.moves_to_base@ == path@.push(
                        tree.nodes()[node_idx as int].edges@[edge_idx as int].mv,
                    )
                    &&& task.results@.len() == 0
                    &&& !task.complete
                }
            }
        }),
        !r ==> final(visits)@ == old(visits)@ && *final(queue) == *old(queue),
{
    let ghost before = queue.tasks@;
    proof {
        assert(node_linked(tree.nodes(), node_idx as int));
        assert(old(visits)@[edge_idx as int] > 0);
    }
    let child_limit: u32 = visits[edge_idx];
    match tree.node(node_idx).child(edge_idx) {
        Some(child_idx) => {
            assert(tree.nodes()[node_idx as int].children@[edge_idx as int] == Some(child_idx));
            if tree.node(child_idx).n() == 0 || tree.node(child_idx).is_terminal() {
                return false;
            }
            let mut moves: Vec<Move> = copy_moves(path);
            moves.push(tree.node(node_idx).edge(edge_idx).mv);
            if !queue.push_gathering(
                tree,
                PickTask::gathering(child_idx, task_base_depth, moves, child_limit),
            ) {
                return false;
            }
            visits[edge_idx] = 0;
            assert(queue.tasks@.drop_last() =~= before);
            true
        },
        None => false,
    }
}

/// Hands large parts of the visits for the children of a node on to tasks.
fn hand_off_subtrees<S: Scalar>(
    context: &SelectionContext<S>,
    tree: &NodeTree<S>,
    queue: &mut PickTaskQueue<S>,
    node_idx: usize,
    depth: u16,
    path: &Vec<Move>,
    visits: &mut Vec<u32>,
    progress: &mut Progress,
    collision_limit: u32,
    picked: &Vec<NodeToProcess<S>>,
    Ghost(start): Ghost<Seq<Node<S>>>,
    Ghost(k0): Ghost<int>,
    Ghost(t0): Ghost<int>,
    Ghost(limit): Ghost<int>,
    Ghost(root): Ghost<int>,
    Ghost(base): Ghost<Seq<Move>>,
    Ghost(walking_by): Ghost<Walking<S>>,
)
    requires
        walking_by.context == *context,
        walking_by.collision_limit == collision_limit,
        tree.wf(),
        old(queue).wf(),
        roots_in_tree(tree.nodes(), *old(queue)),
        root <= node_idx < tree.nodes().len(),
        walking(
            start,
            tree.nodes(),
            node_idx as int,
            old(visits)@,
            0,
            picked@,
            k0,
            old(queue).tasks@,
            t0,
            limit,
        ),
        all_reached(tree.nodes(), root, base, picked@, k0, old(queue).tasks@, t0),
        path@ == base + line_to(tree.nodes(), root, node_idx as int),
        old(progress).passed_off + old(progress).completed + pending_total(
            old(visits)@,
            0,
            old(visits)@.len() as int,
        ) <= collision_limit,
    ensures
        final(queue).wf(),
        roots_in_tree(tree.nodes(), *final(queue)),
        old(queue).tasks@.len() <= final(queue).tasks@.len(),
        final(queue).tasks@.take(old(queue).tasks@.len() as int) == old(queue).tasks@,
        final(queue).tasks_taken == old(queue).tasks_taken,
        final(queue).completed_tasks == old(queue).completed_tasks,
        walking(
            start,
            tree.nodes(),
            node_idx as int,
            final(visits)@,
            0,
            picked@,
            k0,
            final(queue).tasks@,
            t0,
            limit,
        ),
        all_reached(tree.nodes(), root, base, picked@, k0, final(queue).tasks@, t0),
        final(progress).max_limit == old(progress).max_limit,
        final(progress).completed == old(progress).completed,
        final(progress).passed_off + pending_total(final(visits)@, 0, final(visits)@.len() as int)
            == old(progress).passed_off + pending_total(
            old(visits)@,
            0,
            old(visits)@.len() as int,
        ),
        final(visits)@.len() == old(visits)@.len(),
        walking_by.hands_on(
            tree.nodes(),
            node_idx as int,
            depth,
            path@,
            old(visits)@.len() as int,
            HandState { queue: *old(queue), visits: old(visits)@, progress: *old(progress) },
            HandState { queue: *final(queue), visits: final(visits)@, progress: *final(progress) },
        ),
{
    let ghost i = node_idx as int;
    let ghost first = HandState { queue: *queue, visits: visits@, progress: *progress };
    let mut e: usize = 0;
    proof {
        assert(queue.tasks@.take(queue.tasks@.len() as int) =~= queue.tasks@);
        walking_by.lemma_handing_begins(tree.nodes(), i, depth, path@, first);
    }
    while e < visits.len()
        invariant
            tree.wf(),
            queue.wf(),
            i == node_idx,
            root <= node_idx < tree.nodes().len(),
            roots_in_tree(tree.nodes(), *queue),
            visits@.len() == old(visits)@.len(),
            e <= visits@.len(),
            walking_by.context == *context,
            walking_by.collision_limit == collision_limit,
            first == (HandState {
                queue: *old(queue),
                visits: old(visits)@,
                progress: *old(progress),
            }),
            walking_by.hands_on(
                tree.nodes(),
                i,
                depth,
                path@,
                e as int,
                first,
                HandState { queue: *queue, visits: visits@, progress: *progress },
            ),
            old(queue).tasks@.len() <= queue.tasks@.len(),
            queue.tasks@.take(old(queue).tasks@.len() as int) == old(queue).tasks@,
            queue.tasks_taken == old(queue).tasks_taken,
            queue.completed_tasks == old(queue).completed_tasks,
            walking(
                start,
                tree.nodes(),
                i,
                visits@,
                0,
                picked@,
                k0,
                queue.tasks@,
                t0,
                limit,
            ),
            all_reached(tree.nodes(), root, base, picked@, k0, queue.tasks@, t0),
            path@ == base + line_to(tree.nodes(), root, i),
            progress.max_limit == old(progress).max_limit,
            progress.completed == old(progress).completed,
            progress.passed_off + pending_total(visits@, 0, visits@.len() as int) == old(
                progress,
            ).passed_off + pending_total(old(visits)@, 0, old(visits)@.len() as int),
            progress.passed_off + progress.completed + pending_total(
                visits@,
                0,
                visits@.len() as int,
            ) <= collision_limit,
        decreases visits@.len() - e,
    {
        let ghost weights = visits@;
        let ghost tasks = queue.tasks@;
        let ghost middle = HandState { queue: *queue, visits: visits@, progress: *progress };
        proof {
            lemma_pending_entry(weights, 0, weights.len() as int, e as int);
            lemma_pending_update(tree.nodes(), i, weights, e as int, 0, 0, weights.len() as int, 0);
        }
        let child_limit: u32 = visits[e];
        let assigned: u32 = progress.passed_off + progress.completed;
        if child_limit > 0 && is_worth_a_task(
            context.params,
            child_limit,
            collision_limit,
            assigned,
        ) {
            if hand_off_gathering_task(queue, tree, path, node_idx, e, depth, visits) {
                progress.passed_off = progress.passed_off + child_limit;
                proof {
                    lemma_hand_on(
                        start,
                        tree.nodes(),
                        i,
                        weights,
                        e as int,
                        picked@,
                        k0,
                        tasks,
                        queue.tasks@,
                        t0,
                        limit,
                    );
                    assert(queue.tasks@.take(old(queue).tasks@.len() as int) =~= tasks.take(
                        old(queue).tasks@.len() as int,
                    ));
                    assert(node_linked(tree.nodes(), i));
                    let c = tree.nodes()[i].children@[e as int]->Some_0 as int;
                    assert(tree.nodes()[c].parent == Some(node_idx));
                    assert(line_to(tree.nodes(), root, c) == line_to(tree.nodes(), root, i).push(
                        tree.nodes()[i].edges@[e as int].mv,
                    ));
                    assert(path@.push(tree.nodes()[i].edges@[e as int].mv) =~= base + line_to(
                        tree.nodes(),
                        root,
                        c,
                    ));
                    assert forall|t: int| t0 <= t < queue.tasks@.len() implies (
                    #[trigger] queue.tasks@[t] matches Some(task) && task_reached(
                        tree.nodes(),
                        root,
                        base,
                        task,
                    )) by {
                        if t < tasks.len() {
                            assert(queue.tasks@[t] == queue.tasks@.drop_last()[t]);
                            assert(tasks[t] is Some);
                        } else {
                            assert(queue.tasks@[t] == queue.tasks@.last());
                        }
                    }
                }
            }
        }
        proof {
            let now = HandState { queue: *queue, visits: visits@, progress: *progress };
            assert(walking_by.is_handed_on(tree.nodes(), i, depth, path@, e as int, middle, now));
            walking_by.lemma_handing_goes_on(
                tree.nodes(),
                i,
                depth,
                path@,
                e as int,
                first,
                middle,
                now,
            );
        }
        e += 1;
    }
}


/// A walk that has placed all visits does not depend on how it had spread them.
proof fn lemma_walk_ends<S: Scalar>(
    start: Seq<Node<S>>,
    nodes: Seq<Node<S>>,
    i: int,
    visits: Seq<u32>,
    items: Seq<NodeToProcess<S>>,
    k0: int,
    tasks: Seq<Option<PickTask<S>>>,
    t0: int,
    limit: int,
)
    requires
        walking(start, nodes, i, visits, visits.len() as int, items, k0, tasks, t0, limit),
    ensures
        walking(start, nodes, i, Seq::<u32>::empty(), 0, items, k0, tasks, t0, limit),
{
    let none = Seq::<u32>::empty();
    assert forall|x: int| 0 <= x < nodes.len() implies #[trigger] in_balance(
        start,
        nodes,
        i,
        none,
        0,
        items,
        k0,
        tasks,
        t0,
        limit,
        x,
    ) by {
        assert(in_balance(
            start,
            nodes,
            i,
            visits,
            visits.len() as int,
            items,
            k0,
            tasks,
            t0,
            limit,
            x,
        ));
    }
}

/// A node that is not the root of the walk offers an edge if it has one.
proof fn lemma_inner_choice<S: Scalar>(
    context: SelectionContext<S>,
    nodes: Seq<Node<S>>,
    i: int,
    limit: int,
    best_n: u32,
)
    requires
        nodes[i].edges@.len() > 0,
        limit >= 0,
    ensures
        has_choice(context, nodes, i, limit, false, best_n),
{
    assert(is_choice(context, nodes[i], 0, false, best_n));
}

/// What a walk reads.
pub open spec fn walking_by<'a, S: Scalar>(
    context: SelectionContext<'a, S>,
    best_n: u32,
    collision_limit: u32,
    at_base: bool,
    bound: int,
) -> Walking<'a, S> {
    Walking { context, best_n, collision_limit, at_base, bound }
}

/// Places `limit` visits below an expanded node.
///
/// The visits are spread over the edges; then each child gets its share: large
/// shares may be handed on to tasks, a leaf turns its share into collisions, and
/// an expanded child places its share in the same way.
fn walk_below<S: Scalar>(
    context: &SelectionContext<S>,
    tree: &mut NodeTree<S>,
    queue: &mut PickTaskQueue<S>,
    node_idx: usize,
    limit: u32,
    is_root: bool,
    best_n: u32,
    depth: u16,
    path: &mut Vec<Move>,
    picked: &mut Vec<NodeToProcess<S>>,
    progress: &mut Progress,
    collision_limit: u32,
    at_base: bool,
    Ghost(n0): Ghost<int>,
    Ghost(root): Ghost<int>,
    Ghost(base): Ghost<Seq<Move>>,
) -> (r: Result<(), EnginError>)
    requires
        old(tree).wf(),
        old(queue).wf(),
        roots_in_tree(old(tree).nodes(), *old(queue)),
        0 <= root <= node_idx < n0 <= old(tree).nodes().len(),
        forall|j: int| n0 <= j < old(tree).nodes().len() ==> is_new_leaf(#[trigger] old(tree).nodes()[j]),
        limit < u32::MAX,
        old(tree).nodes().len() + limit < usize::MAX,
        twofolds_are_leaves(old(tree).nodes()),
        items_in_tree(old(tree).nodes(), old(picked)@),
        tasks_in_tree(old(tree).nodes(), old(queue).tasks@),
        has_room_below(old(tree).nodes(), node_idx as int, limit as int),
        old(path)@ == base + line_to(old(tree).nodes(), root, node_idx as int),
        old(progress).passed_off + old(progress).completed + limit <= collision_limit,
    ensures
        final(tree).wf(),
        *final(tree) == (NodeTree { arena: final(tree).arena, ..*old(tree) }),
        twofolds_are_leaves(final(tree).nodes()),
        walk_frame(old(tree).nodes(), final(tree).nodes(), node_idx as int),
        final(queue).wf(),
        roots_in_tree(final(tree).nodes(), *final(queue)),
        final(queue).tasks_taken == old(queue).tasks_taken,
        final(queue).completed_tasks == old(queue).completed_tasks,
        old(queue).tasks@.len() <= final(queue).tasks@.len(),
        final(queue).tasks@.take(old(queue).tasks@.len() as int) == old(queue).tasks@,
        has_edges(old(tree).nodes()) && old(tree).nodes()[node_idx as int].edges@.len() > 0 && (is_root
            ==> has_choice(
            *context,
            old(tree).nodes(),
            node_idx as int,
            limit as int,
            is_root,
            best_n,
        )) ==> r is Ok,
        r matches Err(error) ==> error == EnginError::Internal("expanded node offers no edge"),
        r is Ok ==> {
            &&& final(path)@ == old(path)@
            &&& old(picked)@.len() <= final(picked)@.len()
            &&& final(picked)@.take(old(picked)@.len() as int) == old(picked)@
            &&& walking(
                old(tree).nodes(),
                final(tree).nodes(),
                node_idx as int,
                Seq::<u32>::empty(),
                0,
                final(picked)@,
                old(picked)@.len() as int,
                final(queue).tasks@,
                old(queue).tasks@.len() as int,
                limit as int,
            )
            &&& all_reached(
                final(tree).nodes(),
                root,
                base,
                final(picked)@,
                old(picked)@.len() as int,
                final(queue).tasks@,
                old(queue).tasks@.len() as int,
            )
            &&& final(progress).passed_off + final(progress).completed == old(progress).passed_off
                + old(progress).completed + limit
            &&& walking_by(*context, best_n, collision_limit, at_base, n0).is_placed(
                node_idx,
                limit,
                is_root,
                depth,
                old(path)@,
                WalkState {
                    nodes: old(tree).nodes(),
                    queue: *old(queue),
                    items: old(picked)@,
                    progress: *old(progress),
                },
                WalkState {
                    nodes: final(tree).nodes(),
                    queue: *final(queue),
                    items: final(picked)@,
                    progress: *final(progress),
                },
            )
        },
    decreases n0 - node_idx,
{
    let ghost start = tree.nodes();
    let ghost by = walking_by(*context, best_n, collision_limit, at_base, n0);
    let ghost first = WalkState {
        nodes: tree.nodes(),
        queue: *queue,
        items: picked@,
        progress: *progress,
    };
    let ghost i = node_idx as int;
    let ghost k0 = picked@.len() as int;
    let ghost t0 = queue.tasks@.len() as int;
    let ghost first_items = picked@;
    let ghost first_tasks = queue.tasks@;
    let ghost owed = has_edges(start) && start[i].edges@.len() > 0 && (is_root ==> has_choice(
        *context,
        start,
        i,
        limit as int,
        is_root,
        best_n,
    ));
    proof {
        if owed && !is_root {
            lemma_inner_choice(*context, start, i, limit as int, best_n);
        }
    }
    let picked_before: usize = picked.len();
    let mut max_limit: u32 = progress.max_limit;
    let mut visits: Vec<u32> = match spread_visits(
        context,
        tree,
        node_idx,
        limit,
        is_root,
        best_n,
        depth,
        path,
        picked,
        &mut max_limit,
    ) {
        Ok(visits) => visits,
        Err(error) => {
            proof {
                lemma_spread_frame_is_walk_frame(start, tree.nodes(), i);
                assert(queue.tasks@.take(t0) =~= queue.tasks@);
            }
            return Err(error);
        },
    };
    progress.max_limit = max_limit;
    proof {
        lemma_spread_is_walk(
            start,
            tree.nodes(),
            i,
            visits@,
            picked@,
            k0,
            queue.tasks@,
            limit as int,
            depth,
        );
        lemma_new_items_total(picked@, k0, picked@.len() as int, tree.nodes(), i, path@, depth);
        crate::classic::loads::lemma_pending_nonnegative(visits@, 0, visits@.len() as int);
        lemma_line_stable(start, tree.nodes(), root, i);
        assert forall|k: int| k0 <= k < picked@.len() implies item_reached(
            tree.nodes(),
            root,
            base,
            #[trigger] picked@[k],
        ) by {
            assert(visits_child(tree.nodes(), picked@[k], i, path@, depth));
            let c = picked@[k].node_idx as int;
            assert(node_linked(tree.nodes(), c));
            assert(picked@[k].moves_to_visit@ =~= base + line_to(tree.nodes(), root, c));
        }
        assert(queue.tasks@.take(t0) =~= queue.tasks@);
    }
    progress.completed = progress.completed + (picked.len() - picked_before) as u32;
    let ghost spread = HandState { queue: *queue, visits: visits@, progress: *progress };
    if context.task_workers > 0 {
        hand_off_subtrees(
            context,
            tree,
            queue,
            node_idx,
            depth,
            path,
            &mut visits,
            progress,
            collision_limit,
            picked,
            Ghost(start),
            Ghost(k0),
            Ghost(t0),
            Ghost(limit as int),
            Ghost(root),
            Ghost(base),
            Ghost(by),
        );
    }
    let mut from: usize = 0;
    let ghost shares = Shares {
        visits: visits@,
        state: WalkState {
            nodes: tree.nodes(),
            queue: *queue,
            items: picked@,
            progress: *progress,
        },
    };
    let ghost mut course: Seq<WalkState<S>> = seq![shares.state];
    proof {
        assert(by.is_shared(node_idx, limit, is_root, depth, path@, first, shares)) by {
            reveal(Walking::is_shared);
            assert(spread_of(
                by.context,
                first.nodes,
                i,
                limit,
                is_root,
                by.best_n,
                depth,
                path@,
            ).is_spread(
                first.nodes,
                first.items,
                first.progress.max_limit,
                shares.state.nodes,
                spread.visits,
                shares.state.items,
                max_limit,
            ));
            assert(spread.progress == (Progress {
                max_limit,
                passed_off: first.progress.passed_off,
                completed: (first.progress.completed + (shares.state.items.len()
                    - first.items.len())) as u32,
            }));
            assert(by.is_handing(node_idx, depth, path@, spread, shares));
        }
        by.lemma_placing_begins(node_idx, depth, path@, shares);
    }
    while from < visits.len()
        invariant
            tree.wf(),
            *tree == (NodeTree { arena: tree.arena, ..*old(tree) }),
            start == old(tree).nodes(),
            by == walking_by(*context, best_n, collision_limit, at_base, n0),
            first == (WalkState {
                nodes: old(tree).nodes(),
                queue: *old(queue),
                items: old(picked)@,
                progress: *old(progress),
            }),
            shares.visits == visits@,
            by.is_shared(node_idx, limit, is_root, depth, path@, first, shares),
            course.len() == from + 1,
            by.has_come(
                node_idx,
                depth,
                path@,
                shares,
                course,
                WalkState {
                    nodes: tree.nodes(),
                    queue: *queue,
                    items: picked@,
                    progress: *progress,
                },
            ),
            i == node_idx,
            k0 == old(picked)@.len(),
            t0 == old(queue).tasks@.len(),
            queue.wf(),
            roots_in_tree(tree.nodes(), *queue),
            queue.tasks_taken == old(queue).tasks_taken,
            queue.completed_tasks == old(queue).completed_tasks,
            0 <= root <= node_idx < n0 <= start.len(),
            forall|j: int| n0 <= j < start.len() ==> is_new_leaf(#[trigger] start[j]),
            limit < u32::MAX,
            start.len() + limit < usize::MAX,
            well_linked(start),
            has_room_below(start, i, limit as int),
            twofolds_are_leaves(tree.nodes()),
            from <= visits@.len(),
            walking(
                start,
                tree.nodes(),
                i,
                visits@,
                from as int,
                picked@,
                k0,
                queue.tasks@,
                t0,
                limit as int,
            ),
            all_reached(tree.nodes(), root, base, picked@, k0, queue.tasks@, t0),
            picked@.take(k0) == old(picked)@,
            queue.tasks@.take(t0) == old(queue).tasks@,
            path@ == old(path)@,
            path@ == base + line_to(tree.nodes(), root, i),
            owed ==> has_edges(start),
            owed == (has_edges(start) && start[i].edges@.len() > 0 && (is_root ==> has_choice(
                *context,
                start,
                i,
                limit as int,
                is_root,
                best_n,
            ))),
            progress.passed_off + progress.completed + pending_total(
                visits@,
                from as int,
                visits@.len() as int,
            ) == old(progress).passed_off + old(progress).completed + limit,
            old(progress).passed_off + old(progress).completed + limit <= collision_limit,
        decreases visits@.len() - from,
    {
        let ghost before = tree.nodes();
        let ghost items = picked@;
        let ghost tasks = queue.tasks@;
        let share: u32 = visits[from];
        let ghost reached = WalkState {
            nodes: tree.nodes(),
            queue: *queue,
            items: picked@,
            progress: *progress,
        };
        proof {
            assert(node_linked(before, i));
            lemma_pending_first(before, i, visits@, from as int, 0);
            lemma_pending_nonnegative(visits@, from + 1, visits@.len() as int);
        }
        if share == 0 {
            proof {
                lemma_skip_edge(
                    start,
                    before,
                    i,
                    visits@,
                    from as int,
                    items,
                    k0,
                    tasks,
                    t0,
                    limit as int,
                );
                assert(by.is_share_placed(
                    node_idx,
                    from as int,
                    share,
                    depth,
                    path@,
                    reached,
                    reached,
                )) by {
                    reveal(Walking::is_share_placed);
                }
                by.lemma_placing_goes_on(
                    node_idx,
                    depth,
                    path@,
                    shares,
                    course,
                    reached,
                    reached,
                );
                course = course.push(reached);
            }
            from += 1;
            continue;
        }
        assert(before[i].children@[from as int] is Some);
        let child_idx: usize = match tree.node(node_idx).child(from) {
            Some(c) => c,
            None => 0,
        };
        let ghost c = child_idx as int;
        assert(before[i].children@[from as int] == Some(child_idx));
        let expanded: bool = tree.node(child_idx).n() > 0 && !tree.node(child_idx).is_terminal();
        if !expanded {
            let maxvisit: u32 = if share == collision_limit && at_base && progress.max_limit > share {
                progress.max_limit
            } else {
                0
            };
            picked.push(
                NodeToProcess::collision(child_idx, depth.wrapping_add(1), share, maxvisit),
            );
            progress.completed = progress.completed + share;
            proof {
                assert(picked@.drop_last() =~= items);
                lemma_collide(
                    start,
                    before,
                    i,
                    visits@,
                    from as int,
                    items,
                    picked@,
                    k0,
                    tasks,
                    t0,
                    limit as int,
                );
                assert(picked@.take(k0) =~= items.take(k0));
                assert forall|k: int| k0 <= k < picked@.len() implies item_reached(
                    tree.nodes(),
                    root,
                    base,
                    #[trigger] picked@[k],
                ) by {
                    if k < items.len() {
                        assert(picked@[k] == items[k]);
                    }
                }
            }
        } else {
            proof {
                lemma_room_for_child(
                    start,
                    before,
                    i,
                    visits@,
                    from as int,
                    items,
                    k0,
                    tasks,
                    t0,
                    limit as int,
                );
                if c >= start.len() {
                    assert(is_new_leaf(before[c]));
                } else {
                    assert(kept(start[c], before[c]));
                    if c >= n0 {
                        assert(is_new_leaf(start[c]));
                    }
                }
                assert forall|j: int| n0 <= j < before.len() implies is_new_leaf(
                    #[trigger] before[j],
                ) by {
                    if j < start.len() {
                        assert(kept(start[j], before[j]));
                        assert(is_new_leaf(start[j]));
                    }
                }
                assert(line_to(before, root, c) == line_to(before, root, i).push(
                    before[i].edges@[from as int].mv,
                ));
                if owed {
                    assert(start[c].edges@.len() > 0) by {
                        assert(kept(start[c], before[c]));
                        assert(is_expanded(start[c]));
                    }
                    assert forall|j: int|
                        0 <= j < before.len() && is_expanded(#[trigger] before[j]) implies before[j].edges@.len()
                        > 0 by {
                        if j < start.len() {
                            assert(kept(start[j], before[j]));
                            assert(is_expanded(start[j]));
                        } else {
                            assert(is_new_leaf(before[j]));
                        }
                    }
                }
            }
            path.push(tree.node(node_idx).edge(from).mv);
            proof {
                assert(path@ =~= base + line_to(before, root, c));
            }
            let ghost longer = path@;
            match walk_below(
                context,
                tree,
                queue,
                child_idx,
                share,
                false,
                best_n,
                depth.wrapping_add(1),
                path,
                picked,
                progress,
                collision_limit,
                at_base,
                Ghost(n0),
                Ghost(root),
                Ghost(base),
            ) {
                Ok(()) => {},
                Err(error) => {
                    proof {
                        lemma_frame_of_child(start, before, tree.nodes(), i, c);
                        assert(queue.tasks@.take(t0) =~= tasks.take(t0)) by {
                            assert(queue.tasks@.take(tasks.len() as int) == tasks);
                            assert forall|k: int| 0 <= k < t0 implies queue.tasks@[k] == tasks[k] by {
                                assert(queue.tasks@.take(tasks.len() as int)[k] == tasks[k]);
                            }
                        }
                    }
                    return Err(error);
                },
            }
            path.pop();
            proof {
                assert(path@ =~= longer.drop_last());
                assert(path@ =~= base + line_to(before, root, i));
                lemma_walked_child(
                    start,
                    before,
                    tree.nodes(),
                    i,
                    visits@,
                    from as int,
                    items,
                    picked@,
                    k0,
                    tasks,
                    queue.tasks@,
                    t0,
                    limit as int,
                    Seq::<u32>::empty(),
                );
                lemma_line_stable(before, tree.nodes(), root, i);
                lemma_reached_stable(
                    before,
                    tree.nodes(),
                    root,
                    base,
                    items,
                    k0,
                    tasks,
                    t0,
                );
                assert forall|k: int| 0 <= k < items.len() implies items[k] == picked@[k] by {
                    assert(picked@.take(items.len() as int)[k] == picked@[k]);
                }
                assert forall|k: int| 0 <= k < tasks.len() implies tasks[k] == queue.tasks@[k] by {
                    assert(queue.tasks@.take(tasks.len() as int)[k] == queue.tasks@[k]);
                }
                assert(picked@.take(k0) =~= items.take(k0));
                assert(queue.tasks@.take(t0) =~= tasks.take(t0));
                assert forall|k: int| k0 <= k < picked@.len() implies item_reached(
                    tree.nodes(),
                    root,
                    base,
                    #[trigger] picked@[k],
                ) by {
                    if k < items.len() {
                        assert(items[k] == picked@[k]);
                    }
                }
                assert forall|t: int| t0 <= t < queue.tasks@.len() implies (
                #[trigger] queue.tasks@[t] matches Some(task) && task_reached(
                    tree.nodes(),
                    root,
                    base,
                    task,
                )) by {
                    if t < tasks.len() {
                        assert(tasks[t] == queue.tasks@[t]);
                    }
                }
            }
        }
        proof {
            let now = WalkState {
                nodes: tree.nodes(),
                queue: *queue,
                items: picked@,
                progress: *progress,
            };
            assert(by.is_share_placed(
                node_idx,
                from as int,
                share,
                depth,
                path@,
                reached,
                now,
            )) by {
                reveal(Walking::is_share_placed);
                assert(behind(reached.nodes, i, from as int) == child_idx);
            }
            by.lemma_placing_goes_on(node_idx, depth, path@, shares, course, reached, now);
            course = course.push(now);
        }
        from += 1;
    }
    proof {
        by.lemma_placing_ends(
            node_idx,
            limit,
            is_root,
            depth,
            path@,
            first,
            shares,
            course,
            WalkState {
                nodes: tree.nodes(),
                queue: *queue,
                items: picked@,
                progress: *progress,
            },
        );
        lemma_walk_ends(
            start,
            tree.nodes(),
            i,
            visits@,
            picked@,
            k0,
            queue.tasks@,
            t0,
            limit as int,
        );
    }
    Ok(())
}

/// Every new entry made by spreading visits is a single visit.
proof fn lemma_new_items_total<S: Scalar>(
    items: Seq<NodeToProcess<S>>,
    k0: int,
    k: int,
    nodes: Seq<Node<S>>,
    i: int,
    path: Seq<Move>,
    depth: u16,
)
    requires
        0 <= k0 <= k <= items.len(),
        forall|j: int| k0 <= j < k ==> visits_child(nodes, #[trigger] items[j], i, path, depth),
    ensures
        items_total(items, k) - items_total(items, k0) == k - k0,
    decreases k - k0,
{
    if k0 < k {
        lemma_new_items_total(items, k0, k - 1, nodes, i, path, depth);
        assert(visits_child(nodes, items[k - 1], i, path, depth));
    }
}

proof fn lemma_spread_frame_is_walk_frame<S: Scalar>(
    start: Seq<Node<S>>,
    nodes: Seq<Node<S>>,
    i: int,
)
    requires
        well_linked(start),
        0 <= i < start.len(),
        spread_frame(start, nodes, i),
    ensures
        walk_frame(start, nodes, i),
{
    assert forall|j: int| 0 <= j < start.len() implies kept(start[j], #[trigger] nodes[j]) by {
        if j == i {
        } else if is_ancestor(start, j, i) {
            assert(fewer_visits(start[j], nodes[j]));
        } else if start[j].parent == Some(i as usize) {
            assert(given(start[j], nodes[j]));
        } else {
            assert(nodes[j] == start[j]);
        }
    }
    assert forall|j: int|
        0 <= j < start.len() && !is_ancestor(start, j, i) && !is_ancestor(start, i, j) implies #[trigger] nodes[j]
        == start[j] by {
        assert(node_linked(start, j));
        if start[j].parent == Some(i as usize) {
            assert(is_ancestor(start, i, i));
            assert(is_ancestor(start, i, j));
        }
    }
    assert forall|j: int| start.len() <= j < nodes.len() implies is_new_leaf(#[trigger] nodes[j])
        && is_ancestor(nodes, i, j) by {
        assert(is_ancestor(nodes, i, i));
    }
}

/// Whether a walk from `root` accounts for the visits under way at node `x`: those
/// below `root`, and `root` itself where the walk started it.
pub open spec fn is_counted<S>(nodes: Seq<Node<S>>, root: int, is_root: bool, x: int) -> bool {
    is_ancestor(nodes, root, x) && (is_root || x != root)
}

/// The counters of all nodes have room for `limit` further visits.
pub open spec fn has_room<S>(nodes: Seq<Node<S>>, limit: int) -> bool {
    forall|x: int|
        0 <= x < nodes.len() ==> (#[trigger] nodes[x]).n + nodes[x].n_in_flight + limit < u32::MAX
}

/// The visits under way at every node have grown by what the new entries and tasks
/// of a walk from `root` weigh on it.
pub open spec fn in_flight_agrees<S: Scalar>(
    before: Seq<Node<S>>,
    after: Seq<Node<S>>,
    root: int,
    is_root: bool,
    items: Seq<NodeToProcess<S>>,
    k0: int,
    tasks: Seq<Option<PickTask<S>>>,
    t0: int,
) -> bool {
    forall|x: int|
        0 <= x < after.len() ==> (#[trigger] after[x]).n_in_flight == flight_of(before, x) + (
        if is_counted(after, root, is_root, x) {
            items_load(after, items, items.len() as int, x) - items_load(after, items, k0, x)
                + tasks_load(after, tasks, tasks.len() as int, x) - tasks_load(after, tasks, t0, x)
        } else {
            0
        })
}

/// What picking changes.
pub struct Picking<S> {
    pub nodes: Seq<Node<S>>,
    pub queue: PickTaskQueue<S>,
    pub items: Seq<NodeToProcess<S>>,
}

/// Whether visits for a node that is not expanded became entries: at the root of the search
/// one of them starts where it can, and the others collide.
pub open spec fn is_leaf_picked<S: Scalar>(
    root: usize,
    base_depth: u16,
    limit: u32,
    is_root: bool,
    s: Picking<S>,
    t: Picking<S>,
) -> bool {
    let starts = is_root && s.nodes[root as int].accepts_visit();
    let left = if starts {
        (limit - 1) as u32
    } else {
        limit
    };
    let visited = if left > 0 {
        t.items.drop_last()
    } else {
        t.items
    };
    &&& t.queue == s.queue
    &&& t.nodes == (if starts {
        s.nodes.update(
            root as int,
            Node {
                n_in_flight: (s.nodes[root as int].n_in_flight + 1) as u32,
                ..s.nodes[root as int]
            },
        )
    } else {
        s.nodes
    })
    &&& t.items.len() == s.items.len() + (if starts {
        1int
    } else {
        0
    }) + (if left > 0 {
        1int
    } else {
        0
    })
    &&& left > 0 ==> t.items.last().is_pending(
        root,
        deeper(base_depth),
        left,
        if left == limit && base_depth == 0 {
            u32::MAX
        } else {
            0
        },
        true,
    )
    &&& if starts {
        visited.drop_last() == s.items && visited.last().is_pending(
            root,
            deeper(base_depth),
            1,
            0,
            false,
        )
    } else {
        visited == s.items
    }
}

/// Whether visits for a node became entries and tasks.
pub open spec fn is_picked<S: Scalar>(
    context: SelectionContext<S>,
    root: usize,
    base_depth: u16,
    limit: u32,
    moves: Seq<Move>,
    is_root: bool,
    s: Picking<S>,
    t: Picking<S>,
) -> bool {
    if !is_expanded(s.nodes[root as int]) {
        is_leaf_picked(root, base_depth, limit, is_root, s, t)
    } else {
        exists|progress: Progress|
            #[trigger] walking_from(
                context,
                s.nodes,
                root,
                base_depth,
                limit,
                is_root,
            ).is_placed(
                root,
                limit,
                is_root,
                deeper(base_depth),
                moves,
                walk_begun(s, root as int, limit, is_root),
                WalkState { nodes: t.nodes, queue: t.queue, items: t.items, progress },
            )
    }
}

proof fn lemma_picked<S: Scalar>(
    context: SelectionContext<S>,
    root: usize,
    base_depth: u16,
    limit: u32,
    moves: Seq<Move>,
    is_root: bool,
    s: Picking<S>,
    t: Picking<S>,
    progress: Progress,
)
    requires
        is_expanded(s.nodes[root as int]),
        walking_from(context, s.nodes, root, base_depth, limit, is_root).is_placed(
            root,
            limit,
            is_root,
            deeper(base_depth),
            moves,
            walk_begun(s, root as int, limit, is_root),
            WalkState { nodes: t.nodes, queue: t.queue, items: t.items, progress },
        ),
    ensures
        is_picked(context, root, base_depth, limit, moves, is_root, s, t),
{
}

/// What a walk from a node reads.
pub open spec fn walking_from<'a, S: Scalar>(
    context: SelectionContext<'a, S>,
    nodes: Seq<Node<S>>,
    root: usize,
    base_depth: u16,
    limit: u32,
    is_root: bool,
) -> Walking<'a, S> {
    walking_by(
        context,
        if is_root {
            best_edge_visits(context, nodes, root as int)
        } else {
            0
        },
        limit,
        base_depth == 0,
        nodes.len() as int,
    )
}

/// The state in which a walk begins.
pub open spec fn walk_begun<S: Scalar>(
    s: Picking<S>,
    root: int,
    limit: u32,
    is_root: bool,
) -> WalkState<S> {
    WalkState {
        nodes: begun_at(s.nodes, root, limit, is_root),
        queue: s.queue,
        items: s.items,
        progress: Progress { max_limit: u32::MAX, passed_off: 0, completed: 0 },
    }
}

/// The nodes when a walk begins: at the root of the search all visits are under way there.
pub open spec fn begun_at<S: Scalar>(
    nodes: Seq<Node<S>>,
    root: int,
    limit: u32,
    is_root: bool,
) -> Seq<Node<S>> {
    if is_root {
        nodes.update(
            root,
            Node { n_in_flight: (nodes[root].n_in_flight + limit) as u32, ..nodes[root] },
        )
    } else {
        nodes
    }
}

/// Picks the leaves that `collision_limit` visits from a node lead to, and adds
/// them to a batch.
///
/// No visit is lost and none is invented: the new entries and the tasks handed on
/// hold exactly `collision_limit` visits, and at every node the visits under way
/// grow by those of them that pass it. Only nodes that lie on the way from or below
/// the given node change. Success is certain where every expanded node has an edge,
/// and the root of the search one that the restrictions leave.
pub fn pick_nodes_to_extend_task<S: Scalar>(
    context: &SelectionContext<S>,
    tree: &mut NodeTree<S>,
    queue: &mut PickTaskQueue<S>,
    root_idx: usize,
    base_depth: u16,
    collision_limit: u32,
    moves_to_base: &Vec<Move>,
    receiver: &mut Vec<NodeToProcess<S>>,
    is_root: bool,
) -> (r: Result<(), EnginError>)
    requires
        old(tree).wf(),
        old(queue).wf(),
        roots_in_tree(old(tree).nodes(), *old(queue)),
        tasks_in_tree(old(tree).nodes(), old(queue).tasks@),
        items_in_tree(old(tree).nodes(), old(receiver)@),
        root_idx < old(tree).nodes().len(),
        twofolds_are_leaves(old(tree).nodes()),
        collision_limit > 0,
        is_root ==> moves_to_base@.len() == 0,
        old(tree).nodes().len() + collision_limit < usize::MAX,
        has_room(old(tree).nodes(), collision_limit as int),
    ensures
        final(tree).wf(),
        *final(tree) == (NodeTree { arena: final(tree).arena, ..*old(tree) }),
        twofolds_are_leaves(final(tree).nodes()),
        final(queue).wf(),
        roots_in_tree(final(tree).nodes(), *final(queue)),
        final(queue).tasks_taken == old(queue).tasks_taken,
        final(queue).completed_tasks == old(queue).completed_tasks,
        walk_keeps(old(tree).nodes(), final(tree).nodes(), root_idx as int),
        has_edges(old(tree).nodes()) && (is_root && is_expanded(old(tree).nodes()[root_idx as int])
            ==> has_choice(
            *context,
            old(tree).nodes(),
            root_idx as int,
            collision_limit as int,
            true,
            best_edge_visits(*context, old(tree).nodes(), root_idx as int),
        )) ==> r is Ok,
        old(queue).tasks@.len() <= final(queue).tasks@.len(),
        final(queue).tasks@.take(old(queue).tasks@.len() as int) == old(queue).tasks@,
        r matches Err(error) ==> error == EnginError::Internal("expanded node offers no edge"),
        r is Ok ==> {
            let k0 = old(receiver)@.len() as int;
            let t0 = old(queue).tasks@.len() as int;
            let items = final(receiver)@;
            let tasks = final(queue).tasks@;
            &&& k0 <= items.len()
            &&& items.take(k0) == old(receiver)@
            &&& items_in_tree(final(tree).nodes(), items)
            &&& tasks_in_tree(final(tree).nodes(), tasks)
            &&& all_reached(
                final(tree).nodes(),
                root_idx as int,
                moves_to_base@,
                items,
                k0,
                tasks,
                t0,
            )
            &&& items_total(items, items.len() as int) - items_total(items, k0) + tasks_total(
                tasks,
                tasks.len() as int,
            ) - tasks_total(tasks, t0) == collision_limit
            &&& in_flight_agrees(
                old(tree).nodes(),
                final(tree).nodes(),
                root_idx as int,
                is_root,
                items,
                k0,
                tasks,
                t0,
            )
            &&& is_picked(
                *context,
                root_idx,
                base_depth,
                collision_limit,
                moves_to_base@,
                is_root,
                Picking { nodes: old(tree).nodes(), queue: *old(queue), items: old(receiver)@ },
                Picking { nodes: final(tree).nodes(), queue: *final(queue), items },
            )
        },
{
    let ghost start = tree.nodes();
    let ghost root = root_idx as int;
    let ghost k0 = receiver@.len() as int;
    let ghost t0 = queue.tasks@.len() as int;
    let ghost first_items = receiver@;
    let depth: u16 = base_depth.wrapping_add(1);
    proof {
        assert(start[root].n + start[root].n_in_flight + collision_limit < u32::MAX);
        assert(queue.tasks@.take(t0) =~= queue.tasks@);
        assert(receiver@.take(k0) =~= receiver@);
        assert(is_ancestor(start, root, root));
    }
    if tree.node(root_idx).n() == 0 || tree.node(root_idx).is_terminal() {
        let mut left: u32 = collision_limit;
        if is_root {
            if tree.arena.nodes[root_idx].try_start_score_update() {
                left = left - 1;
                receiver.push(NodeToProcess::visit(root_idx, depth));
            }
        }
        proof {
            assert(tree.nodes() =~= start.update(root, tree.nodes()[root]));
            lemma_update_keeps_links(start, root, tree.nodes()[root]);
            lemma_walk_keeps_root(start, tree.nodes(), root);
        }
        let ghost visited = receiver@;
        if left > 0 {
            let maxvisit: u32 = if left == collision_limit && base_depth == 0 {
                u32::MAX
            } else {
                0
            };
            receiver.push(NodeToProcess::collision(root_idx, depth, left, maxvisit));
        }
        proof {
            let nodes = tree.nodes();
            let items = receiver@;
            assert(items.take(k0) =~= first_items);
            assert(line_to(nodes, root, root) =~= Seq::<Move>::empty());
            assert(moves_to_base@ + line_to(nodes, root, root) =~= moves_to_base@);
            lemma_root_leaf(
                start,
                nodes,
                root,
                first_items,
                items,
                queue.tasks@,
                is_root,
                collision_limit as int,
                left as int,
            );
            if left > 0 {
                assert(items.drop_last() =~= visited);
            }
            if left < collision_limit {
                assert(visited.drop_last() =~= first_items);
                assert(nodes =~= start.update(root, nodes[root]));
            } else {
                assert(nodes =~= start);
            }
            assert(is_leaf_picked(
                root_idx,
                base_depth,
                collision_limit,
                is_root,
                Picking { nodes: start, queue: *queue, items: first_items },
                Picking { nodes, queue: *queue, items },
            ));
            assert forall|k: int| k0 <= k < items.len() implies item_reached(
                nodes,
                root,
                moves_to_base@,
                #[trigger] items[k],
            ) by {
                if !items[k].is_collision {
                    assert(items[k].moves_to_visit@ =~= moves_to_base@ + line_to(nodes, root, root));
                }
            }
        }
        return Ok(());
    }
    let best_n: u32 = if is_root {
        match context.current_best_edge {
            Some(edge) => crate::classic::descent::child_n(tree, root_idx, edge),
            None => 0,
        }
    } else {
        0
    };
    if is_root {
        tree.arena.nodes[root_idx].increment_n_in_flight(collision_limit);
    }
    let ghost begun = tree.nodes();
    proof {
        assert(begun =~= start.update(root, begun[root]));
        lemma_update_keeps_links(start, root, begun[root]);
        assert(same_parents(start, begun));
        assert(line_to(begun, root, root) =~= Seq::<Move>::empty());
        assert(moves_to_base@ + line_to(begun, root, root) =~= moves_to_base@);
        assert forall|x: int| 0 <= x < begun.len() && !is_ancestor(begun, x, root) implies (
        #[trigger] begun[x]).n + begun[x].n_in_flight + collision_limit < u32::MAX by {
            assert(begun[x] == start[x]);
        }
        if is_root && has_choice(
            *context,
            start,
            root,
            collision_limit as int,
            true,
            best_n,
        ) {
            lemma_choice_with_more_visits(*context, start, begun, root, collision_limit as int, best_n);
        }
        assert(has_edges(start) ==> has_edges(begun)) by {
            if has_edges(start) {
                assert forall|j: int| 0 <= j < begun.len() && is_expanded(#[trigger] begun[j]) implies begun[j].edges@.len()
                    > 0 by {
                    assert(is_expanded(start[j]));
                }
            }
        }
    }
    let ghost first_queue = *queue;
    let mut path: Vec<Move> = copy_moves(moves_to_base);
    let mut progress: Progress = Progress { max_limit: u32::MAX, passed_off: 0, completed: 0 };
    let outcome: Result<(), EnginError> = walk_below(
        context,
        tree,
        queue,
        root_idx,
        collision_limit,
        is_root,
        best_n,
        depth,
        &mut path,
        receiver,
        &mut progress,
        collision_limit,
        base_depth == 0,
        Ghost(begun.len() as int),
        Ghost(root),
        Ghost(moves_to_base@),
    );
    proof {
        lemma_walk_keeps(start, begun, tree.nodes(), root);
        if outcome is Ok {
            assert(begun =~= begun_at(start, root, collision_limit, is_root));
            lemma_picked(
                *context,
                root_idx,
                base_depth,
                collision_limit,
                moves_to_base@,
                is_root,
                Picking { nodes: start, queue: first_queue, items: first_items },
                Picking { nodes: tree.nodes(), queue: *queue, items: receiver@ },
                progress,
            );
            lemma_walk_agrees(
                start,
                begun,
                tree.nodes(),
                root,
                is_root,
                receiver@,
                k0,
                queue.tasks@,
                t0,
                collision_limit as int,
            );
        }
    }
    outcome
}

/// The completed visits of the best edge of the root.
pub open spec fn best_edge_visits<S: Scalar>(
    context: SelectionContext<S>,
    nodes: Seq<Node<S>>,
    root: int,
) -> u32 {
    match context.current_best_edge {
        Some(edge) => child_visits(nodes, root, edge as int) as u32,
        None => 0,
    }
}

/// What a walk from `root` leaves alone: the links, edges and bounds of every node,
/// and all of the nodes that neither lie above `root` nor below it. New nodes are
/// leaves below `root`.
pub open spec fn walk_keeps<S: Scalar>(
    before: Seq<Node<S>>,
    after: Seq<Node<S>>,
    root: int,
) -> bool {
    &&& same_parents(before, after)
    &&& forall|j: int| 0 <= j < before.len() ==> kept(before[j], #[trigger] after[j])
    &&& forall|j: int|
        0 <= j < before.len() && j != root && is_ancestor(before, j, root) ==> fewer_visits(
            before[j],
            #[trigger] after[j],
        )
    &&& forall|j: int|
        0 <= j < before.len() && !is_ancestor(before, j, root) && !is_ancestor(before, root, j)
            ==> #[trigger] after[j] == before[j]
    &&& forall|j: int|
        before.len() <= j < after.len() ==> is_new_leaf(#[trigger] after[j]) && is_ancestor(
            after,
            root,
            j,
        )
}

proof fn lemma_walk_keeps_root<S: Scalar>(
    before: Seq<Node<S>>,
    after: Seq<Node<S>>,
    root: int,
)
    requires
        0 <= root < before.len(),
        after == before.update(root, after[root]),
        after[root] == (Node { n_in_flight: after[root].n_in_flight, ..before[root] }),
    ensures
        walk_keeps(before, after, root),
{
    assert(is_ancestor(before, root, root));
}

proof fn lemma_walk_keeps<S: Scalar>(
    start: Seq<Node<S>>,
    begun: Seq<Node<S>>,
    nodes: Seq<Node<S>>,
    root: int,
)
    requires
        0 <= root < start.len(),
        begun == start.update(root, begun[root]),
        begun[root] == (Node { n_in_flight: begun[root].n_in_flight, ..start[root] }),
        walk_frame(begun, nodes, root),
    ensures
        walk_keeps(start, nodes, root),
{
    assert(same_parents(start, begun));
    assert forall|j: int| 0 <= j < start.len() implies (#[trigger] nodes[j]).parent
        == start[j].parent by {
        assert(nodes[j].parent == begun[j].parent);
    }
    assert forall|j: int| 0 <= j < start.len() implies kept(start[j], #[trigger] nodes[j]) by {
        assert(kept(begun[j], nodes[j]));
        assert forall|e: int|
            0 <= e < start[j].children@.len() && #[trigger] start[j].children@[e] is Some implies nodes[j].children@[e]
            == start[j].children@[e] by {
            assert(begun[j].children@[e] is Some);
        }
    }
    assert forall|j: int| 0 <= j < start.len() && j != root && is_ancestor(start, j, root) implies fewer_visits(
        start[j],
        #[trigger] nodes[j],
    ) by {
        lemma_same_ancestors(start, begun, j, root);
        assert(fewer_visits(begun[j], nodes[j]));
    }
    assert forall|j: int|
        0 <= j < start.len() && !is_ancestor(start, j, root) && !is_ancestor(start, root, j) implies #[trigger] nodes[j]
        == start[j] by {
        lemma_same_ancestors(start, begun, j, root);
        lemma_same_ancestors(start, begun, root, j);
        assert(is_ancestor(start, root, root));
        assert(nodes[j] == begun[j]);
    }
}

proof fn lemma_walk_agrees<S: Scalar>(
    start: Seq<Node<S>>,
    begun: Seq<Node<S>>,
    nodes: Seq<Node<S>>,
    root: int,
    is_root: bool,
    items: Seq<NodeToProcess<S>>,
    k0: int,
    tasks: Seq<Option<PickTask<S>>>,
    t0: int,
    limit: int,
)
    requires
        0 <= root < start.len(),
        begun == start.update(root, begun[root]),
        begun[root] == (Node { n_in_flight: begun[root].n_in_flight, ..start[root] }),
        begun[root].n_in_flight == start[root].n_in_flight + (if is_root {
            limit
        } else {
            0
        }),
        walking(begun, nodes, root, Seq::<u32>::empty(), 0, items, k0, tasks, t0, limit),
    ensures
        in_flight_agrees(start, nodes, root, is_root, items, k0, tasks, t0),
{
    let none = Seq::<u32>::empty();
    assert(is_ancestor(nodes, root, root));
    assert forall|x: int| 0 <= x < nodes.len() implies (#[trigger] nodes[x]).n_in_flight
        == flight_of(start, x) + (if is_counted(nodes, root, is_root, x) {
        items_load(nodes, items, items.len() as int, x) - items_load(nodes, items, k0, x)
            + tasks_load(nodes, tasks, tasks.len() as int, x) - tasks_load(nodes, tasks, t0, x)
    } else {
        0
    }) by {
        assert(in_balance(begun, nodes, root, none, 0, items, k0, tasks, t0, limit, x));
        if is_ancestor(nodes, x, root) {
            lemma_ancestor_below(nodes, x, root);
            if is_ancestor(nodes, root, x) {
                lemma_ancestor_below(nodes, root, x);
            }
        } else if !is_ancestor(nodes, root, x) {
            if x < begun.len() {
                lemma_same_ancestors(begun, nodes, x, root);
                lemma_same_ancestors(begun, nodes, root, x);
                assert(nodes[x] == begun[x]);
            } else {
                assert(is_new_leaf(nodes[x]));
            }
        }
    }
}

/// More visits under way at a node leave it with at least as many edges to choose
/// from.
proof fn lemma_choice_with_more_visits<S: Scalar>(
    context: SelectionContext<S>,
    start: Seq<Node<S>>,
    begun: Seq<Node<S>>,
    root: int,
    limit: int,
    best_n: u32,
)
    requires
        0 <= root < start.len() == begun.len(),
        begun[root] == (Node { n_in_flight: begun[root].n_in_flight, ..start[root] }),
        begun[root].n_in_flight >= start[root].n_in_flight,
        has_choice(context, start, root, limit, true, best_n),
    ensures
        has_choice(context, begun, root, limit, true, best_n),
{
    let e = choose|e: int|
        0 <= e < needed_edges(context, start[root], limit, true) && #[trigger] is_choice(
            context,
            start[root],
            e,
            true,
            best_n,
        );
    assert(is_choice(context, begun[root], e, true, best_n));
}

/// A walk that begins at a leaf places at most one visit there and lets the rest
/// collide.
proof fn lemma_root_leaf<S: Scalar>(
    start: Seq<Node<S>>,
    nodes: Seq<Node<S>>,
    root: int,
    first: Seq<NodeToProcess<S>>,
    items: Seq<NodeToProcess<S>>,
    tasks: Seq<Option<PickTask<S>>>,
    is_root: bool,
    limit: int,
    left: int,
)
    requires
        0 <= root < start.len(),
        nodes == start.update(root, nodes[root]),
        nodes[root] == (Node { n_in_flight: nodes[root].n_in_flight, ..start[root] }),
        first.len() <= items.len(),
        items.take(first.len() as int) == first,
        0 <= left,
        1 <= limit,
        left == limit || (left == limit - 1 && is_root),
        nodes[root].n_in_flight == start[root].n_in_flight + limit - left,
        items.len() == first.len() + (limit - left) + (if left > 0 {
            1int
        } else {
            0
        }),
        left < limit ==> {
            let visit = items[first.len() as int];
            visit.node_idx == root && !visit.is_collision && visit.multivisit == 1
        },
        left > 0 ==> items.last().node_idx == root && items.last().is_collision
            && items.last().multivisit == left,
    ensures
        items_total(items, items.len() as int) - items_total(items, first.len() as int) == limit,
        in_flight_agrees(
            start,
            nodes,
            root,
            is_root,
            items,
            first.len() as int,
            tasks,
            tasks.len() as int,
        ),
{
    let k0 = first.len() as int;
    let n = items.len() as int;
    if left > 0 {
        assert(items_total(items, n) == items_total(items, n - 1) + items[n - 1].multivisit);
    }
    if left < limit {
        assert(items_total(items, k0 + 1) == items_total(items, k0) + items[k0].multivisit);
    }
    assert(is_ancestor(nodes, root, root));
    assert forall|x: int| 0 <= x < nodes.len() implies (#[trigger] nodes[x]).n_in_flight
        == flight_of(start, x) + (if is_counted(nodes, root, is_root, x) {
        items_load(nodes, items, items.len() as int, x) - items_load(nodes, items, k0, x)
            + tasks_load(nodes, tasks, tasks.len() as int, x) - tasks_load(
            nodes,
            tasks,
            tasks.len() as int,
            x,
        )
    } else {
        0
    }) by {
        reveal_with_fuel(items_load, 3);
        if x != root && is_ancestor(nodes, x, root) && is_ancestor(nodes, root, x) {
            lemma_ancestor_below(nodes, x, root);
            lemma_ancestor_below(nodes, root, x);
        }
    }
}

} // verus!
