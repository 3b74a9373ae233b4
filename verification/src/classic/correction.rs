//! What a proof changes above the node that it settles.
use vstd::prelude::*;

use crate::classic::backup::{do_backup_update_single_node, WorkerSearchState};
use crate::classic::bounds::bounds_set;
use crate::classic::carry::{Backup, BackupStep, Carry};
use crate::classic::node::{nudged, Node};
use crate::classic::params::SearchParams;
use crate::classic::tasks::NodeToProcess;
use crate::classic::tree::NodeTree;
use crate::exact::{is_unrounded, lemma_quotient};
use crate::position::Move;
use crate::scalar::Scalar;

verus! {

/// Whether two nodes have the same place, visits, averages and result.
pub open spec fn same_core<S: Scalar>(a: Node<S>, b: Node<S>) -> bool {
    &&& a.parent == b.parent
    &&& a.wl == b.wl
    &&& a.n == b.n
    &&& a.terminal == b.terminal
}

/// Serving a node changes that node alone.
proof fn lemma_served<S: Scalar>(backup: Backup<S>, step: BackupStep<S>, j: int)
    requires
        backup.is_serving(step),
        0 <= j < step.start.nodes().len(),
        step.carry.at < step.start.nodes().len(),
    ensures
        j != step.carry.at ==> step.solid.nodes()[j] == step.start.nodes()[j],
        j == step.carry.at ==> same_core(
            step.solid.nodes()[j],
            backup.served_node(step.start.nodes(), step.carry),
        ),
        step.solid.nodes().len() >= step.start.nodes().len(),
{
    reveal(Backup::is_serving);
}

/// Where nothing is rounded, visits whose values change move an average by their share.
proof fn lemma_corrected_average<S: Scalar>(
    value: spec_fn(S) -> real,
    average: S,
    visits: u32,
    change: S,
    n: u32,
)
    requires
        is_unrounded(value),
        n > 0,
    ensures
        value(nudged(average, visits, change, S::spec_count(n))) * (n as real) == value(average) * (
        n as real) + value(change) * (visits as real),
{
    let total = S::spec_count(n);
    let product = S::spec_count(visits).spec_times(change);
    lemma_quotient(value, product, total);
    let (a, s, k, v, m) = (
        value(average),
        value(product.spec_over(total)),
        visits as real,
        value(change),
        n as real,
    );
    assert((a + s) * m == a * m + v * k) by (nonlinear_arith)
        requires
            s * m == k * v,
    ;
}

/// A parent that a walk has settled: it is terminal now, and the walk brings how its
/// earlier visits were wrong.
proof fn lemma_settled_parent<S: Scalar>(
    backup: Backup<S>,
    step: BackupStep<S>,
    start: NodeTree<S>,
    carry: Carry<S>,
    p: int,
)
    requires
        backup.is_climbing(step, start, carry),
        step.solid.nodes()[step.carry.at as int].parent == Some(p as usize),
        0 <= p < step.solid.nodes().len() <= usize::MAX,
        !step.solid.nodes()[p].spec_is_terminal(),
        start.nodes()[p].spec_is_terminal(),
    ensures
        carry.at == p,
        carry.n_to_fix == step.solid.nodes()[p].n,
        carry.v_delta == start.nodes()[p].wl.spec_minus(
            step.solid.nodes()[p].wl,
        ).spec_negated().spec_negated(),
        start.nodes()[p].n == step.solid.nodes()[p].n,
        start.nodes()[p].parent == step.solid.nodes()[p].parent,
        start.nodes().len() == step.solid.nodes().len(),
        forall|j: int|
            0 <= j < start.nodes().len() && j != p ==> same_core(
                #[trigger] start.nodes()[j],
                step.solid.nodes()[j],
            ),
{
    reveal(Backup::is_climbing);
    let m = backup.counted(step.start.nodes(), step.carry).m;
    let solid = step.solid.nodes();
    assert(p as usize as int == p);
    assert(bounds_set(solid, start.nodes(), p, m) || start.nodes() == solid);
}

/// A walk that goes on to the head settles nothing there.
proof fn lemma_reaching_the_head<S: Scalar>(
    backup: Backup<S>,
    step: BackupStep<S>,
    start: NodeTree<S>,
    carry: Carry<S>,
)
    requires
        backup.is_climbing(step, start, carry),
        step.solid.nodes()[step.carry.at as int].parent == Some(backup.head),
        !step.solid.nodes()[backup.head as int].spec_is_terminal(),
    ensures
        carry.at == backup.head,
        start.nodes() == step.solid.nodes(),
        carry.n_to_fix == step.carry.n_to_fix,
        carry.v_delta == step.carry.v_delta.spec_negated(),
        carry.eval.wl == backup.counted(step.start.nodes(), step.carry).wl.spec_negated(),
{
    reveal(Backup::is_climbing);
}

/// Where nothing is rounded, a value that stands for itself leaves an average alone, and one
/// that does not moves it to that of the old visits and the new.
proof fn lemma_finalized_value<S: Scalar>(
    value: spec_fn(S) -> real,
    node: Node<S>,
    wl: S,
    d: S,
    m: S,
    visits: u32,
)
    requires
        is_unrounded(value),
        0 < node.n + visits <= u32::MAX,
    ensures
        value(node.finalized(wl, d, m, visits).wl) * ((node.n as real) + (visits as real)) == value(
            node.wl,
        ) * (node.n as real) + value(wl) * (visits as real),
        wl == node.wl ==> value(node.finalized(wl, d, m, visits).wl) == value(wl),
{
    let total = (node.n + visits) as u32;
    let change = wl.spec_minus(node.wl);
    lemma_corrected_average(value, node.wl, visits, change, total);
    let after = value(node.finalized(wl, d, m, visits).wl);
    let (a, v, n, k) = (value(node.wl), value(wl), node.n as real, visits as real);
    assert(total as real == n + k);
    assert(after * (n + k) == a * n + v * k) by (nonlinear_arith)
        requires
            after * (n + k) == a * (n + k) + (v - a) * k,
    ;
    if wl == node.wl {
        assert(after == v) by (nonlinear_arith)
            requires
                after * (n + k) == v * n + v * k,
                n + k > 0real,
        ;
    }
}

proof fn lemma_correction(
    a: real,
    average: real,
    after: real,
    w: real,
    v: real,
    n: real,
    k: real,
    m: real,
)
    requires
        average * (n + k) == a * n + (-w) * k,
        after * (n + k) == average * (n + k) + (-(w - v)) * m,
    ensures
        after * (n + k) == a * n - w * k - (w - v) * m,
{
    assert((-w) * k == -(w * k) && (-(w - v)) * m == -((w - v) * m)) by (nonlinear_arith);
}

/// The average of a head that takes a result of its child's child, and a correction for its
/// child's earlier visits.
proof fn lemma_corrected_head<S: Scalar>(
    value: spec_fn(S) -> real,
    head: Node<S>,
    visits: u32,
    result: S,
    was: S,
    earlier: u32,
)
    requires
        is_unrounded(value),
        0 < head.n + visits <= u32::MAX,
    ensures
        ({
            let total = S::spec_count((head.n + visits) as u32);
            let average = nudged(
                head.wl,
                visits,
                result.spec_negated().spec_minus(head.wl),
                total,
            );
            let change = result.spec_minus(was).spec_negated().spec_negated().spec_negated();
            let after = if earlier > 0 {
                nudged(average, earlier, change, total)
            } else {
                average
            };
            let (n, k, m) = (head.n as real, visits as real, earlier as real);
            value(after) * (n + k) == value(head.wl) * n - value(result) * k - (value(result)
                - value(was)) * m
        }),
{
    lemma_finalized_value(value, head, result.spec_negated(), result, result, visits);
    let average = head.finalized(result.spec_negated(), result, result, visits).wl;
    let change = result.spec_minus(was).spec_negated().spec_negated().spec_negated();
    let total = (head.n + visits) as u32;
    lemma_corrected_average(value, average, earlier, change, total);
    let (n, k, m) = (head.n as real, visits as real, earlier as real);
    let (w, v) = (value(result), value(was));
    assert(total as real == n + k);
    assert(value(result.spec_negated()) == -w);
    assert(value(change) == -(w - v));
    let after = if earlier > 0 {
        nudged(average, earlier, change, S::spec_count(total))
    } else {
        average
    };
    if earlier == 0 {
        assert((-(w - v)) * m == 0real) by (nonlinear_arith)
            requires
                m == 0real,
        ;
    }
    lemma_correction(value(head.wl), value(average), value(after), w, v, n, k, m);
}

/// What such a walk does: the result that it settles the parent with, and how the parent and
/// the head take it.
proof fn lemma_head_facts<S: Scalar>(
    backup: Backup<S>,
    before: NodeTree<S>,
    low: BackupStep<S>,
    mid: BackupStep<S>,
    last: BackupStep<S>,
    p: int,
) -> (result: S)
    requires
        low.start == before,
        backup.head < p < low.carry.at < before.nodes().len(),
        before.nodes()[low.carry.at as int].parent == Some(p as usize),
        before.nodes()[p].parent == Some(backup.head),
        !before.nodes()[p].spec_is_terminal(),
        !before.nodes()[backup.head as int].spec_is_terminal(),
        backup.is_serving(low),
        backup.is_climbing(low, mid.start, mid.carry),
        mid.carry.at == p,
        backup.is_serving(mid),
        backup.is_climbing(mid, last.start, last.carry),
        last.carry.at == backup.head,
        backup.is_serving(last),
        last.solid.nodes()[p].spec_is_terminal(),
    ensures
        ({
            let h = backup.head as int;
            let (settled, head) = (before.nodes()[p], before.nodes()[h]);
            let k = backup.multivisit;
            let average = nudged(
                head.wl,
                k,
                result.spec_negated().spec_minus(head.wl),
                S::spec_count((head.n + k) as u32),
            );
            &&& last.solid.nodes()[p].wl == nudged(
                result,
                k,
                result.spec_minus(result),
                S::spec_count((settled.n + k) as u32),
            )
            &&& last.solid.nodes()[h].wl == (if settled.n > 0 {
                nudged(
                    average,
                    settled.n,
                    result.spec_minus(settled.wl).spec_negated().spec_negated().spec_negated(),
                    S::spec_count((head.n + k) as u32),
                )
            } else {
                average
            })
        }),
{
    let h = backup.head as int;
    assert(before.arena.nodes.len() == before.nodes().len());
    assert(low.solid.arena.nodes.len() == low.solid.nodes().len());
    lemma_served(backup, low, low.carry.at as int);
    lemma_served(backup, low, p);
    lemma_served(backup, low, h);
    lemma_climb_keeps_parent(backup, low, mid.start, mid.carry, p);
    lemma_climb_keeps_others(backup, low, mid.start, mid.carry, h);
    lemma_served(backup, mid, p);
    lemma_served(backup, mid, h);
    lemma_reaching_the_head(backup, mid, last.start, last.carry);
    lemma_served(backup, last, p);
    lemma_served(backup, last, h);
    assert(mid.start.nodes()[p].spec_is_terminal());
    lemma_settled_parent(backup, low, mid.start, mid.carry, p);
    mid.start.nodes()[p].wl
}

/// The average of a head two plies above a node whose first visit settles its parent.
proof fn lemma_head_average<S: Scalar>(
    value: spec_fn(S) -> real,
    backup: Backup<S>,
    before: NodeTree<S>,
    low: BackupStep<S>,
    mid: BackupStep<S>,
    last: BackupStep<S>,
    p: int,
)
    requires
        is_unrounded(value),
        low.start == before,
        backup.head < p < low.carry.at < before.nodes().len() <= usize::MAX,
        before.nodes()[low.carry.at as int].parent == Some(p as usize),
        before.nodes()[p].parent == Some(backup.head),
        !before.nodes()[p].spec_is_terminal(),
        !before.nodes()[backup.head as int].spec_is_terminal(),
        backup.is_serving(low),
        backup.is_climbing(low, mid.start, mid.carry),
        mid.carry.at == p,
        backup.is_serving(mid),
        backup.is_climbing(mid, last.start, last.carry),
        last.carry.at == backup.head,
        backup.is_serving(last),
        last.solid.nodes()[p].spec_is_terminal(),
        0 < before.nodes()[backup.head as int].n + backup.multivisit <= u32::MAX,
        0 < before.nodes()[p].n + backup.multivisit <= u32::MAX,
    ensures
        ({
            let head = before.nodes()[backup.head as int];
            let settled = before.nodes()[p];
            let result = value(last.solid.nodes()[p].wl);
            let (n, k, m) = (head.n as real, backup.multivisit as real, settled.n as real);
            value(last.solid.nodes()[backup.head as int].wl) * (n + k) == value(head.wl) * n - result
                * k - (result - value(settled.wl)) * m
        }),
{
    let h = backup.head as int;
    let (settled, head) = (before.nodes()[p], before.nodes()[h]);
    let result = lemma_head_facts(backup, before, low, mid, last, p);
    let k = backup.multivisit;
    let own = Node { wl: result, ..settled };
    lemma_finalized_value(value, own, result, result, result, k);
    lemma_corrected_head(value, head, k, result, settled.wl, settled.n);
}

proof fn lemma_climb_keeps_others<S: Scalar>(
    backup: Backup<S>,
    step: BackupStep<S>,
    start: NodeTree<S>,
    carry: Carry<S>,
    j: int,
)
    requires
        backup.is_climbing(step, start, carry),
        carry.at < step.solid.nodes().len(),
        0 <= j < step.solid.nodes().len(),
        j != carry.at,
    ensures
        same_core(start.nodes()[j], step.solid.nodes()[j]),
{
    reveal(Backup::is_climbing);
    assert(step.solid.arena.nodes.len() == step.solid.nodes().len());
    let m = backup.counted(step.start.nodes(), step.carry).m;
    let solid = step.solid.nodes();
    let q = carry.at as int;
    assert(bounds_set(solid, start.nodes(), q, m) || start.nodes() == solid);
}

/// Where nothing is rounded, a first visit to a terminal node that settles its parent counts
/// at the head, two plies above, as the opposite of the settled result, and so do all earlier
/// visits to the parent: the head has the average that it would have, had they all had that
/// result.
pub proof fn law_proof_corrects_earlier_visits<S: Scalar>(
    value: spec_fn(S) -> real,
    tree: &mut NodeTree<S>,
    state: &mut WorkerSearchState,
    params: SearchParams<S>,
    item: NodeToProcess<S>,
    root_is_black: bool,
    root_move_filter: Vec<Move>,
    parent: usize,
)
    requires
        is_unrounded(value),
        call_ensures(
            do_backup_update_single_node::<S>,
            (tree, state, &params, &item, root_is_black, &root_move_filter),
            (),
        ),
        old(tree).current_head is Some,
        old(tree).head() < parent < item.node_idx < old(tree).nodes().len(),
        old(tree).nodes()[item.node_idx as int].parent == Some(parent),
        old(tree).nodes()[parent as int].parent == old(tree).current_head,
        !old(tree).nodes()[parent as int].spec_is_terminal(),
        !old(tree).nodes()[old(tree).head()].spec_is_terminal(),
        final(tree).nodes()[parent as int].spec_is_terminal(),
        0 < old(tree).nodes()[old(tree).head()].n + item.multivisit <= u32::MAX,
        0 < old(tree).nodes()[parent as int].n + item.multivisit <= u32::MAX,
    ensures
        ({
            let head = old(tree).nodes()[old(tree).head()];
            let settled = old(tree).nodes()[parent as int];
            let result = value(final(tree).nodes()[parent as int].wl);
            let (n, k, m) = (head.n as real, item.multivisit as real, settled.n as real);
            value(final(tree).nodes()[old(tree).head()].wl) * (n + k) == value(head.wl) * n - result
                * k - (result - value(settled.wl)) * m
        }),
{
    let before = old(tree).nodes();
    let h = old(tree).head();
    let c = item.node_idx as int;
    let p = parent as int;
    let backup = Backup {
        params,
        head: h as usize,
        root_is_black,
        filter: root_move_filter@,
        multivisit: item.multivisit,
    };
    let best = old(state).current_best_edge;
    let best_after = final(state).current_best_edge;
    assert(backup.is_carried_up(*old(tree), item, best, *final(tree), best_after));
    let (steps, last) = choose|steps: Seq<BackupStep<S>>, last: BackupStep<S>|
        {
            &&& #[trigger] backup.has_come(
                *old(tree),
                item,
                best,
                steps,
                last.start,
                last.carry,
            )
            &&& last.carry.at == backup.head
            &&& #[trigger] backup.is_serving(last)
            &&& last.solid == *final(tree)
            &&& last.best_edge == best_after
        };
    assert(old(tree).arena.nodes.len() == before.len());
    lemma_two_plies(backup, *old(tree), item, best, steps, last, p);
    lemma_head_average(value, backup, *old(tree), steps[0], steps[1], last, p);
}

/// A walk to a head that is two plies above takes two steps before the last.
proof fn lemma_two_plies<S: Scalar>(
    backup: Backup<S>,
    before: NodeTree<S>,
    item: NodeToProcess<S>,
    best_edge: Option<usize>,
    steps: Seq<BackupStep<S>>,
    last: BackupStep<S>,
    p: int,
)
    requires
        backup.has_come(before, item, best_edge, steps, last.start, last.carry),
        last.carry.at == backup.head,
        backup.head < p < item.node_idx < before.nodes().len() <= usize::MAX,
        before.nodes()[item.node_idx as int].parent == Some(p as usize),
        before.nodes()[p].parent == Some(backup.head),
    ensures
        steps.len() == 2,
        steps[0].start == before,
        steps[0].carry.at == item.node_idx,
        steps[0].carry.n_to_fix == 0,
        backup.is_serving(steps[0]),
        backup.is_climbing(steps[0], steps[1].start, steps[1].carry),
        backup.is_serving(steps[1]),
        backup.is_climbing(steps[1], last.start, last.carry),
        steps[1].carry.at == p,
{
    reveal(Backup::has_come);
    assert(steps.len() > 0);
    let c = item.node_idx as int;
    lemma_served(backup, steps[0], c);
    lemma_climbs_to_parent(backup, steps[0], if steps.len() == 1 {
        last.start
    } else {
        steps[1].start
    }, if steps.len() == 1 {
        last.carry
    } else {
        steps[1].carry
    });
    assert(steps.len() > 1);
    assert(backup.is_climbing(steps[0], steps[1].start, steps[1].carry));
    lemma_served(backup, steps[0], p);
    lemma_climb_keeps_parent(backup, steps[0], steps[1].start, steps[1].carry, p);
    lemma_served(backup, steps[1], p);
    lemma_climbs_to_parent(backup, steps[1], if steps.len() == 2 {
        last.start
    } else {
        steps[2].start
    }, if steps.len() == 2 {
        last.carry
    } else {
        steps[2].carry
    });
    if steps.len() > 2 {
        assert(backup.is_climbing(steps[1], steps[2].start, steps[2].carry));
        assert(steps[2].carry.at != backup.head);
    }
}

proof fn lemma_climbs_to_parent<S: Scalar>(
    backup: Backup<S>,
    step: BackupStep<S>,
    start: NodeTree<S>,
    carry: Carry<S>,
)
    requires
        backup.is_climbing(step, start, carry),
    ensures
        step.solid.nodes()[step.carry.at as int].parent == Some(carry.at),
{
    reveal(Backup::is_climbing);
}

proof fn lemma_climb_keeps_parent<S: Scalar>(
    backup: Backup<S>,
    step: BackupStep<S>,
    start: NodeTree<S>,
    carry: Carry<S>,
    j: int,
)
    requires
        backup.is_climbing(step, start, carry),
        carry.at < step.solid.nodes().len(),
        0 <= j < step.solid.nodes().len(),
    ensures
        start.nodes().len() == step.solid.nodes().len(),
        start.nodes()[j].parent == step.solid.nodes()[j].parent,
{
    reveal(Backup::is_climbing);
    assert(step.solid.arena.nodes.len() == step.solid.nodes().len());
    let m = backup.counted(step.start.nodes(), step.carry).m;
    let solid = step.solid.nodes();
    let q = carry.at as int;
    assert(bounds_set(solid, start.nodes(), q, m) || start.nodes() == solid);
}

} // verus!
