//! The walk that spreads the visits of a batch over the tree.
use vstd::prelude::*;

use crate::classic::loads::{
    is_expanded, items_in_tree, items_load, items_total, lemma_items_load_between,
    lemma_items_load_prefix, lemma_items_load_stable, lemma_pending_entry, lemma_pending_bound,
    lemma_pending_same, lemma_pending_update, lemma_pending_zero, pending_load, pending_total,
    same_parents, visits_have_children,
};
use crate::classic::node::{prior_bits, Node, Terminal};
use crate::classic::params::SearchParams;
use crate::classic::picking::{
    draw_score, ensure_node_twofold_correct_for_depth, estimate_visits, fewer_visits,
    is_stale_twofold, leaders_of, lemma_leaders_admissible, lemma_leaders_exist, lemma_twofold_frame,
    scan_edges, twofold_corrected, twofolds_are_leaves, Candidates, Leaders,
};
use crate::classic::spread::{gave_exactly, has_child_made, started_at, Spread, SpreadState};
use crate::classic::tasks::NodeToProcess;
use crate::classic::tree::{
    is_ancestor, lemma_ancestor_below, lemma_ancestor_stable, lemma_update_keeps_links,
    node_linked, well_linked, NodeTree,
};
use crate::classic::uct::{compute_puct_factor, fpu_at, get_fpu, puct_factor};
use crate::error::EnginError;
use crate::position::{contains_move, copy_moves, Move};
use crate::scalar::Scalar;

verus! {

/// What a walk reads besides the tree.
pub struct SelectionContext<'a, S> {
    pub params: &'a SearchParams<S>,
    /// The moves to which the root is restricted; empty for no restriction.
    pub root_move_filter: &'a Vec<Move>,
    /// How many playouts the time manager still expects.
    pub remaining_playouts: i64,
    /// The best edge of the root so far.
    pub current_best_edge: Option<usize>,
    pub root_is_black: bool,
    pub task_workers: i32,
}

/// The completed visits of the child behind an edge.
pub open spec fn child_visits<S>(nodes: Seq<Node<S>>, i: int, e: int) -> int {
    if 0 <= e < nodes[i].children@.len() {
        match nodes[i].children@[e] {
            Some(c) => nodes[c as int].n as int,
            None => 0,
        }
    } else {
        0
    }
}

/// Whether an edge passes the restriction of the root.
pub open spec fn passes_filter<S>(
    context: SelectionContext<S>,
    node: Node<S>,
    e: int,
    is_root: bool,
) -> bool {
    !is_root || context.root_move_filter@.len() == 0 || context.root_move_filter@.contains(
        node.edges@[e].mv,
    )
}

/// Whether an edge may be chosen. At the root it has to pass the filter, and it
/// has to be the best edge or still able to catch up with its visits.
pub open spec fn may_choose<S>(
    context: SelectionContext<S>,
    nodes: Seq<Node<S>>,
    i: int,
    e: int,
    is_root: bool,
    best_n: u32,
) -> bool {
    !is_root || ((context.current_best_edge == Some(e as usize) || context.remaining_playouts
        >= best_n - child_visits(nodes, i, e)) && passes_filter(context, nodes[i], e, is_root))
}

/// How many edges of a node can come into question for `limit` visits: edges are
/// ordered by prior, so at most that many unvisited ones do.
pub open spec fn needed_edges<S: Scalar>(
    context: SelectionContext<S>,
    node: Node<S>,
    limit: int,
    is_root: bool,
) -> int {
    if is_root && context.root_move_filter@.len() > 0 {
        node.edges@.len() as int
    } else if node.spec_n_started() + limit + 2 < node.edges@.len() {
        node.spec_n_started() + limit + 2
    } else {
        node.edges@.len() as int
    }
}

/// Whether an edge can take any visit: it passes the filter and cannot be pruned.
pub open spec fn is_choice<S>(
    context: SelectionContext<S>,
    node: Node<S>,
    e: int,
    is_root: bool,
    best_n: u32,
) -> bool {
    &&& passes_filter(context, node, e, is_root)
    &&& !is_root || context.current_best_edge == Some(e as usize) || context.remaining_playouts
        >= best_n
}

/// A node offers an edge for every visit: it has edges, and at the root the best
/// edge, or some edge that cannot be pruned, passes the filter.
pub open spec fn has_choice<S: Scalar>(
    context: SelectionContext<S>,
    nodes: Seq<Node<S>>,
    i: int,
    limit: int,
    is_root: bool,
    best_n: u32,
) -> bool {
    exists|e: int|
        0 <= e < needed_edges(context, nodes[i], limit, is_root) && #[trigger] is_choice(
            context,
            nodes[i],
            e,
            is_root,
            best_n,
        )
}

pub(crate) fn child_n<S: Scalar>(tree: &NodeTree<S>, node_idx: usize, edge_idx: usize) -> (r: u32)
    requires
        tree.wf(),
        node_idx < tree.nodes().len(),
    ensures
        r == child_visits(tree.nodes(), node_idx as int, edge_idx as int),
{
    proof {
        assert(node_linked(tree.nodes(), node_idx as int));
    }
    match tree.node(node_idx).child(edge_idx) {
        Some(c) => {
            assert(tree.nodes()[node_idx as int].children@[edge_idx as int] == Some(c));
            tree.node(c).n()
        },
        None => 0,
    }
}

fn is_choosable<S: Scalar>(
    context: &SelectionContext<S>,
    tree: &NodeTree<S>,
    node_idx: usize,
    edge_idx: usize,
    is_root: bool,
    best_n: u32,
) -> (r: bool)
    requires
        tree.wf(),
        node_idx < tree.nodes().len(),
        edge_idx < tree.nodes()[node_idx as int].edges@.len(),
    ensures
        r == may_choose(
            *context,
            tree.nodes(),
            node_idx as int,
            edge_idx as int,
            is_root,
            best_n,
        ),
{
    if !is_root {
        return true;
    }
    let is_best: bool = match context.current_best_edge {
        Some(best) => best == edge_idx,
        None => false,
    };
    if !is_best && context.remaining_playouts < best_n as i64 - child_n(tree, node_idx, edge_idx) as i64 {
        return false;
    }
    context.root_move_filter.is_empty() || contains_move(
        context.root_move_filter,
        tree.node(node_idx).edge(edge_idx).mv,
    )
}

/// The started visits of the child behind an edge.
pub open spec fn child_started<S: Scalar>(nodes: Seq<Node<S>>, i: int, e: int) -> int {
    match nodes[i].children@[e] {
        Some(c) => nodes[c as int].spec_n_started(),
        None => 0,
    }
}

/// The value of the child behind an edge, or that of an unvisited edge.
pub open spec fn child_utility<S: Scalar>(
    nodes: Seq<Node<S>>,
    i: int,
    e: int,
    fpu: S,
    draw_score: S,
) -> S {
    match nodes[i].children@[e] {
        Some(c) => if nodes[c as int].n > 0 {
            nodes[c as int].spec_q(draw_score)
        } else {
            fpu
        },
        None => fpu,
    }
}

/// What is entered for one edge before visits are spread.
pub open spec fn is_entered<S: Scalar>(
    candidates: Candidates<S>,
    context: SelectionContext<S>,
    nodes: Seq<Node<S>>,
    i: int,
    e: int,
    is_root: bool,
    best_n: u32,
    draw_score: S,
) -> bool {
    &&& candidates.policy@[e] == S::spec_from_bits(prior_bits(nodes[i].edges@[e].p))
    &&& candidates.utility@[e] == child_utility(
        nodes,
        i,
        e,
        fpu_at(*context.params, nodes, i, is_root, draw_score),
        draw_score,
    )
    &&& candidates.n_started@[e] == child_started(nodes, i, e)
    &&& candidates.admissible@[e] == may_choose(context, nodes, i, e, is_root, best_n)
    &&& candidates.score@[e] == candidates.scored(e, puct_factor(*context.params, nodes[i], is_root))
}

/// Enters the edges of a node that come into question.
pub(crate) fn fill_candidates<S: Scalar>(
    context: &SelectionContext<S>,
    tree: &NodeTree<S>,
    node_idx: usize,
    len: usize,
    is_root: bool,
    best_n: u32,
    draw_score: S,
) -> (r: Candidates<S>)
    requires
        tree.wf(),
        node_idx < tree.nodes().len(),
        len <= tree.nodes()[node_idx as int].edges@.len(),
        forall|e: int|
            0 <= e < len ==> #[trigger] child_started(tree.nodes(), node_idx as int, e) < u32::MAX,
    ensures
        r.wf(len as int),
        forall|e: int|
            0 <= e < len ==> #[trigger] is_entered(
                r,
                *context,
                tree.nodes(),
                node_idx as int,
                e,
                is_root,
                best_n,
                draw_score,
            ),
{
    let factor: S = compute_puct_factor(context.params, tree.node(node_idx), is_root);
    let fpu: S = get_fpu(context.params, tree.arena(), node_idx, is_root, draw_score);
    let mut candidates: Candidates<S> = Candidates {
        policy: Vec::new(),
        utility: Vec::new(),
        n_started: Vec::new(),
        score: Vec::new(),
        admissible: Vec::new(),
    };
    let mut e: usize = 0;
    while e < len
        invariant
            tree.wf(),
            node_idx < tree.nodes().len(),
            e <= len <= tree.nodes()[node_idx as int].edges@.len(),
            candidates.wf(e as int),
            factor == puct_factor(*context.params, tree.nodes()[node_idx as int], is_root),
            fpu == fpu_at(
                *context.params,
                tree.nodes(),
                node_idx as int,
                is_root,
                draw_score,
            ),
            forall|f: int|
                0 <= f < len ==> #[trigger] child_started(tree.nodes(), node_idx as int, f)
                    < u32::MAX,
            forall|f: int|
                0 <= f < e ==> #[trigger] is_entered(
                    candidates,
                    *context,
                    tree.nodes(),
                    node_idx as int,
                    f,
                    is_root,
                    best_n,
                    draw_score,
                ),
        decreases len - e,
    {
        let ghost before = candidates;
        let edge = tree.edge_and_node(node_idx, e);
        assert(child_started(tree.nodes(), node_idx as int, e as int) < u32::MAX);
        let policy: S = edge.p();
        let utility: S = edge.q(fpu, draw_score);
        let n_started: u32 = edge.n_started();
        let score: S = utility.plus(policy.times(factor).over(S::count(1 + n_started)));
        let admissible: bool = is_choosable(context, tree, node_idx, e, is_root, best_n);
        candidates.policy.push(policy);
        candidates.utility.push(utility);
        candidates.n_started.push(n_started);
        candidates.score.push(score);
        candidates.admissible.push(admissible);
        proof {
            assert forall|f: int| 0 <= f < e + 1 implies #[trigger] is_entered(
                candidates,
                *context,
                tree.nodes(),
                node_idx as int,
                f,
                is_root,
                best_n,
                draw_score,
            ) by {
                if f < e {
                    assert(is_entered(
                        before,
                        *context,
                        tree.nodes(),
                        node_idx as int,
                        f,
                        is_root,
                        best_n,
                        draw_score,
                    ));
                }
            }
        }
        e += 1;
    }
    candidates
}


/// The visits under way at a node, 0 where there was no such node.
pub open spec fn flight_of<S>(nodes: Seq<Node<S>>, x: int) -> int {
    if 0 <= x < nodes.len() {
        nodes[x].n_in_flight as int
    } else {
        0
    }
}

/// `b` is the child `a` after visits were given to it: some may be under way, and
/// a stale repetition may have been revoked.
pub open spec fn given<S: Scalar>(a: Node<S>, b: Node<S>) -> bool {
    &&& b == (Node {
        wl: b.wl,
        d: b.d,
        m: b.m,
        n: b.n,
        terminal: b.terminal,
        n_in_flight: b.n_in_flight,
        ..a
    })
    &&& b.n <= a.n
    &&& b.terminal == a.terminal || (b.terminal == Terminal::NonTerminal && b.n == 0)
}

/// A node as it was created, but for visits under way.
pub open spec fn is_new_leaf<S: Scalar>(node: Node<S>) -> bool {
    &&& node.edges@.len() == 0
    &&& node.n == 0
    &&& node.terminal == Terminal::NonTerminal
}

/// `after` is `before` after visits were given to the child `c` behind edge `e`
/// of node `i`, of which `added` started there.
pub open spec fn gave<S: Scalar>(
    before: Seq<Node<S>>,
    after: Seq<Node<S>>,
    i: int,
    e: int,
    c: int,
    added: int,
    depth: u16,
) -> bool {
    &&& same_parents(before, after)
    &&& i < c < after.len()
    &&& after[c].parent == Some(i as usize)
    &&& after[c].edge_index == e
    &&& match before[i].children@[e] {
        Some(child) => {
            &&& c == child
            &&& after.len() == before.len()
            &&& given(before[c], after[c])
            &&& !is_stale_twofold(before[c], depth) ==> after[c] == (Node {
                n_in_flight: after[c].n_in_flight,
                ..before[c]
            })
        },
        None => {
            &&& c == before.len()
            &&& after.len() == before.len() + 1
            &&& is_new_leaf(after[c])
        },
    }
    &&& after[c].n_in_flight == flight_of(before, c) + added
    &&& !is_stale_twofold(after[c], depth)
    &&& forall|j: int|
        0 <= j < before.len() && j != c && !is_ancestor(before, j, i) ==> #[trigger] after[j]
            == before[j]
    &&& forall|j: int|
        0 <= j < before.len() && j != i && is_ancestor(before, j, i) ==> fewer_visits(
            before[j],
            #[trigger] after[j],
        )
    &&& after[i].n <= before[i].n
    &&& after[i] == (Node {
        children: after[i].children,
        wl: after[i].wl,
        d: after[i].d,
        m: after[i].m,
        n: after[i].n,
        ..before[i]
    })
    &&& after[i].children@ == before[i].children@.update(e, Some(c as usize))
}

/// What happened to visits that were given to a child.
pub struct Given {
    pub child_idx: usize,
    /// A visit has started at the child.
    pub started: bool,
    /// All of the visits have started, and will go on below the child.
    pub expanded: bool,
}

/// Gives visits to the child behind an edge, which is created where it does not
/// exist. All of them start at an expanded child; at a leaf only one can.
pub(crate) fn give_visits<S: Scalar>(
    tree: &mut NodeTree<S>,
    node_idx: usize,
    edge_idx: usize,
    new_visits: u32,
    depth: u16,
) -> (r: Given)
    requires
        old(tree).wf(),
        node_idx < old(tree).nodes().len() < usize::MAX,
        edge_idx < old(tree).nodes()[node_idx as int].edges@.len(),
        twofolds_are_leaves(old(tree).nodes()),
        new_visits >= 1,
        match old(tree).nodes()[node_idx as int].children@[edge_idx as int] {
            Some(c) => old(tree).nodes()[c as int].n_in_flight + new_visits <= u32::MAX,
            None => true,
        },
    ensures
        final(tree).wf(),
        *final(tree) == (NodeTree { arena: final(tree).arena, ..*old(tree) }),
        gave(
            old(tree).nodes(),
            final(tree).nodes(),
            node_idx as int,
            edge_idx as int,
            r.child_idx as int,
            if r.expanded {
                new_visits as int
            } else if r.started {
                1
            } else {
                0
            },
            depth,
        ),
        r.expanded == is_expanded(final(tree).nodes()[r.child_idx as int]),
        r.expanded ==> r.started,
        old(tree).nodes()[node_idx as int].children@[edge_idx as int] is None ==> r.started
            && !r.expanded,
        gave_exactly(
            old(tree).nodes(),
            final(tree).nodes(),
            node_idx as int,
            edge_idx as int,
            r.child_idx as int,
            new_visits,
            depth,
        ),
{
    let ghost before = tree.nodes();
    let ghost i = node_idx as int;
    let ghost e = edge_idx as int;
    proof {
        assert(node_linked(before, i));
    }
    let child_idx: usize = tree.arena.spawn_child(node_idx, edge_idx);
    let ghost middle = tree.nodes();
    let ghost c = child_idx as int;
    proof {
        assert(node_linked(middle, i));
        assert(middle[i].children@[e] == Some(child_idx));
        assert(twofolds_are_leaves(middle));
        assert(middle[i].children@ =~= before[i].children@.update(e, Some(child_idx)));
    }
    ensure_node_twofold_correct_for_depth(tree, child_idx, depth);
    let ghost corrected = tree.nodes();
    proof {
        lemma_twofold_frame(middle, c, depth);
        assert(corrected[c].n_in_flight == middle[c].n_in_flight);
        assert forall|j: int| 0 <= j < before.len() && j != i && is_ancestor(before, j, i) implies fewer_visits(
            before[j],
            #[trigger] corrected[j],
        ) by {
            lemma_ancestor_below(before, j, i);
            assert(fewer_visits(middle[j], corrected[j]));
        }
        assert forall|j: int|
            0 <= j < before.len() && j != c && !is_ancestor(before, j, i) implies #[trigger] corrected[j]
            == before[j] by {
            assert(same_parents(before, middle)) by {
                assert forall|k: int| 0 <= k < before.len() implies (#[trigger] middle[k]).parent
                    == before[k].parent by {}
            }
            assert forall|k: int| 0 <= k <= i implies (#[trigger] before[k]).parent
                == middle[k].parent by {
                assert(middle[k].parent == before[k].parent);
            }
            lemma_ancestor_stable(before, middle, j, i);
            assert(!is_ancestor(middle, j, c));
        }
        assert(fewer_visits(middle[i], corrected[i]));
        assert forall|j: int| 0 <= j < before.len() implies (#[trigger] corrected[j]).parent
            == before[j].parent by {
            if j != c {
                assert(fewer_visits(middle[j], corrected[j]));
            }
        }
    }
    let started: bool = tree.arena.nodes[child_idx].try_start_score_update();
    let expanded: bool = tree.node(child_idx).n() > 0 && !tree.node(child_idx).is_terminal();
    if expanded {
        tree.arena.nodes[child_idx].increment_n_in_flight(new_visits - 1);
    }
    proof {
        assert(tree.nodes() =~= corrected.update(c, tree.nodes()[c]));
        assert(has_child_made(before, middle, i, e, c));
        assert(tree.nodes() =~= started_at(twofold_corrected(middle, c, depth), c, new_visits));
        lemma_update_keeps_links(corrected, c, tree.nodes()[c]);
        assert(node_linked(tree.nodes(), i));
        assert(tree.nodes()[i].children@[e] == Some(child_idx));
        assert forall|j: int| 0 <= j < before.len() && j != i && is_ancestor(before, j, i) implies fewer_visits(
            before[j],
            #[trigger] tree.nodes()[j],
        ) by {
            lemma_ancestor_below(before, j, i);
            assert(tree.nodes()[j] == corrected[j]);
        }
    }
    Given { child_idx, started, expanded }
}

/// What may have changed in the nodes while visits were spread below node `i`.
pub open spec fn spread_frame<S: Scalar>(
    start: Seq<Node<S>>,
    nodes: Seq<Node<S>>,
    i: int,
) -> bool {
    &&& same_parents(start, nodes)
    &&& forall|j: int|
        0 <= j < start.len() && j != i && is_ancestor(start, j, i) ==> fewer_visits(
            start[j],
            #[trigger] nodes[j],
        )
    &&& forall|j: int|
        0 <= j < start.len() && !is_ancestor(start, j, i) && start[j].parent == Some(i as usize)
            ==> given(start[j], #[trigger] nodes[j])
    &&& forall|j: int|
        0 <= j < start.len() && !is_ancestor(start, j, i) && start[j].parent != Some(i as usize)
            ==> #[trigger] nodes[j] == start[j]
    &&& nodes[i].n <= start[i].n
    &&& nodes[i] == (Node {
        children: nodes[i].children,
        wl: nodes[i].wl,
        d: nodes[i].d,
        m: nodes[i].m,
        n: nodes[i].n,
        ..start[i]
    })
    &&& nodes[i].children@.len() == start[i].children@.len()
    &&& forall|e: int|
        0 <= e < start[i].children@.len() && #[trigger] start[i].children@[e] is Some
            ==> nodes[i].children@[e] == start[i].children@[e]
    &&& forall|j: int|
        start.len() <= j < nodes.len() ==> is_new_leaf(#[trigger] nodes[j]) && nodes[j].parent
            == Some(i as usize)
}

/// The visits under way at node `x` are those at the start and those given since.
/// Nodes from `i` upwards carried all of them from the start.
pub open spec fn balanced<S: Scalar>(
    start: Seq<Node<S>>,
    nodes: Seq<Node<S>>,
    i: int,
    visits: Seq<u32>,
    items: Seq<NodeToProcess<S>>,
    k0: int,
    spent: int,
    x: int,
) -> bool {
    let load = items_load(nodes, items, items.len() as int, x) - items_load(nodes, items, k0, x)
        + pending_load(nodes, i, visits, 0, visits.len() as int, x);
    if is_ancestor(nodes, x, i) {
        load == spent && nodes[x].n_in_flight == start[x].n_in_flight
    } else {
        nodes[x].n_in_flight == flight_of(start, x) + load
    }
}

/// The state while `limit` visits are spread over the edges of node `i`: `left`
/// of them are not given away yet.
pub open spec fn spreading<S: Scalar>(
    start: Seq<Node<S>>,
    nodes: Seq<Node<S>>,
    i: int,
    visits: Seq<u32>,
    items: Seq<NodeToProcess<S>>,
    k0: int,
    limit: int,
    left: int,
    depth: u16,
) -> bool {
    &&& spread_frame(start, nodes, i)
    &&& visits_have_children(nodes[i], visits)
    &&& items_in_tree(nodes, items)
    &&& 0 <= k0 <= items.len()
    &&& left + pending_total(visits, 0, visits.len() as int) + items_total(
        items,
        items.len() as int,
    ) - items_total(items, k0) == limit
    &&& nodes.len() - start.len() <= items_total(items, items.len() as int) - items_total(items, k0)
    &&& forall|x: int|
        0 <= x < nodes.len() ==> #[trigger] balanced(
            start,
            nodes,
            i,
            visits,
            items,
            k0,
            limit - left,
            x,
        )
    &&& forall|e: int|
        0 <= e < visits.len() && #[trigger] visits[e] > 0 ==> !is_stale_twofold(
            nodes[nodes[i].children@[e]->Some_0 as int],
            depth,
        )
}

/// Entries that refer to older nodes weigh nothing on a newer one.
pub proof fn lemma_items_load_newer<S>(
    nodes: Seq<Node<S>>,
    items: Seq<NodeToProcess<S>>,
    k: int,
    x: int,
)
    requires
        k <= items.len(),
        forall|j: int| 0 <= j < k ==> (#[trigger] items[j]).node_idx < x,
    ensures
        items_load(nodes, items, k, x) == 0,
    decreases k,
{
    if k > 0 {
        lemma_items_load_newer(nodes, items, k - 1, x);
        if is_ancestor(nodes, x, items[k - 1].node_idx as int) {
            lemma_ancestor_below(nodes, x, items[k - 1].node_idx as int);
        }
    }
}

/// Pending visits for older nodes weigh nothing on a newer one.
pub proof fn lemma_pending_newer<S: Scalar>(
    nodes: Seq<Node<S>>,
    i: int,
    visits: Seq<u32>,
    to: int,
    x: int,
)
    requires
        to <= visits.len(),
        forall|e: int|
            0 <= e < to && #[trigger] visits[e] > 0 ==> (nodes[i].children@[e] matches Some(c) ==> c
                < x),
    ensures
        pending_load(nodes, i, visits, 0, to, x) == 0,
    decreases to,
{
    if to > 0 {
        lemma_pending_newer(nodes, i, visits, to - 1, x);
        assert(visits[to - 1] >= 0);
        match nodes[i].children@[to - 1] {
            Some(c) => {
                if is_ancestor(nodes, x, c as int) {
                    lemma_ancestor_below(nodes, x, c as int);
                }
            },
            None => {},
        }
    }
}


proof fn lemma_spread_frame_step<S: Scalar>(
    start: Seq<Node<S>>,
    before: Seq<Node<S>>,
    after: Seq<Node<S>>,
    i: int,
    e: int,
    c: int,
    added: int,
    depth: u16,
)
    requires
        well_linked(before),
        0 <= i < start.len(),
        0 <= e < before[i].children@.len(),
        spread_frame(start, before, i),
        gave(before, after, i, e, c, added, depth),
    ensures
        spread_frame(start, after, i),
{
    assert(node_linked(before, i));
    assert forall|j: int| 0 <= j < start.len() implies (#[trigger] after[j]).parent
        == start[j].parent by {
        assert(before[j].parent == start[j].parent);
    }
    assert forall|j: int| 0 <= j < start.len() implies is_ancestor(start, j, i) == (
    #[trigger] is_ancestor(before, j, i)) by {
        assert forall|k: int| 0 <= k <= i implies (#[trigger] start[k]).parent == before[k].parent by {
            assert(before[k].parent == start[k].parent);
        }
        lemma_ancestor_stable(start, before, j, i);
    }
    assert forall|j: int| 0 <= j < start.len() && j != i && is_ancestor(start, j, i) implies fewer_visits(
        start[j],
        #[trigger] after[j],
    ) by {
        assert(is_ancestor(before, j, i));
        assert(fewer_visits(start[j], before[j]));
        assert(fewer_visits(before[j], after[j]));
    }
    assert forall|j: int|
        0 <= j < start.len() && !is_ancestor(start, j, i) && start[j].parent == Some(i as usize) implies given(
        start[j],
        #[trigger] after[j],
    ) by {
        assert(!is_ancestor(before, j, i));
        assert(given(start[j], before[j]));
        if j == c {
        } else {
            assert(after[j] == before[j]);
        }
    }
    assert forall|j: int|
        0 <= j < start.len() && !is_ancestor(start, j, i) && start[j].parent != Some(i as usize) implies #[trigger] after[j]
        == start[j] by {
        assert(!is_ancestor(before, j, i));
        assert(before[j] == start[j]);
        assert(after[c].parent == Some(i as usize));
        assert(after[j].parent == before[j].parent);
    }
    assert forall|j: int| start.len() <= j < after.len() implies is_new_leaf(#[trigger] after[j])
        && after[j].parent == Some(i as usize) by {
        if j < before.len() {
            assert(is_new_leaf(before[j]));
            if j != c {
                if is_ancestor(before, j, i) {
                    lemma_ancestor_below(before, j, i);
                }
                assert(after[j] == before[j]);
            }
        }
    }
}

/// Giving visits to one edge keeps the account in balance.
proof fn lemma_spread_step<S: Scalar>(
    start: Seq<Node<S>>,
    before: Seq<Node<S>>,
    after: Seq<Node<S>>,
    i: int,
    e: int,
    c: int,
    added: int,
    visits: Seq<u32>,
    weight: u32,
    items: Seq<NodeToProcess<S>>,
    items2: Seq<NodeToProcess<S>>,
    k0: int,
    limit: int,
    left: int,
    new_visits: int,
    depth: u16,
)
    requires
        well_linked(before),
        well_linked(after),
        0 <= i < start.len(),
        0 <= e < visits.len(),
        1 <= new_visits,
        spreading(start, before, i, visits, items, k0, limit, left, depth),
        gave(before, after, i, e, c, added, depth),
        ({
            ||| is_expanded(after[c]) && added == new_visits && items2 == items && weight == visits[e]
                + new_visits
            ||| !is_expanded(after[c]) && added == 1 && weight == visits[e] + new_visits - 1
                && items2.len() == items.len() + 1 && items2.drop_last() == items
                && items2.last().node_idx == c && items2.last().multivisit == 1
                && !items2.last().is_collision
            ||| !is_expanded(after[c]) && added == 0 && items2 == items && weight == visits[e]
                + new_visits && before[i].children@[e] is Some
        }),
        is_expanded(after[c]) ==> before[i].children@[e] is Some,
    ensures
        spreading(
            start,
            after,
            i,
            visits.update(e, weight),
            items2,
            k0,
            limit,
            left - new_visits,
            depth,
        ),
{
    let visits2 = visits.update(e, weight);
    let len = visits.len() as int;
    let pushed = items2.len() > items.len();
    assert(node_linked(before, i));
    lemma_spread_frame_step(start, before, after, i, e, c, added, depth);
    lemma_pending_update(after, i, visits, e, weight, 0, len, 0);
    lemma_items_load_prefix(after, items, items2, items.len() as int, 0);
    lemma_items_load_prefix(after, items, items2, k0, 0);
    assert forall|k: int| 0 <= k < items2.len() implies (#[trigger] items2[k]).node_idx
        < after.len() by {
        if k < items.len() {
            assert(items2[k] == items[k]);
        }
    }
    assert(visits_have_children(after[i], visits2)) by {
        assert forall|f: int| 0 <= f < visits2.len() && #[trigger] visits2[f] > 0 implies after[i].children@[f] is Some by {
            if f != e {
                assert(visits[f] > 0);
            }
        }
    }
    assert forall|f: int| 0 <= f < visits2.len() && #[trigger] visits2[f] > 0 implies !is_stale_twofold(
        after[after[i].children@[f]->Some_0 as int],
        depth,
    ) by {
        if f != e {
            assert(visits[f] > 0);
            lemma_other_child_same(before, after, i, e, c, added, depth, f);
        }
    }
    assert forall|x: int| 0 <= x < after.len() implies #[trigger] balanced(
        start,
        after,
        i,
        visits2,
        items2,
        k0,
        limit - (left - new_visits),
        x,
    ) by {
        assert forall|k: int| 0 <= k <= i implies (#[trigger] before[k]).parent == after[k].parent by {
            assert(after[k].parent == before[k].parent);
        }
        lemma_ancestor_stable(before, after, x, i);
        lemma_items_load_stable(before, after, items, items.len() as int, x);
        lemma_items_load_stable(before, after, items, k0, x);
        lemma_items_load_prefix(after, items, items2, items.len() as int, x);
        lemma_items_load_prefix(after, items, items2, k0, x);
        assert forall|f: int| 0 <= f < len && #[trigger] visits[f] > 0 implies before[i].children@[f]
            == after[i].children@[f] && (before[i].children@[f] matches Some(d) ==> {
            &&& is_expanded(before[d as int]) == is_expanded(after[d as int])
            &&& is_ancestor(before, x, d as int) == is_ancestor(after, x, d as int)
        }) by {
            let d = before[i].children@[f]->Some_0 as int;
            assert forall|k: int| 0 <= k <= d implies (#[trigger] before[k]).parent
                == after[k].parent by {
                assert(after[k].parent == before[k].parent);
            }
            lemma_ancestor_stable(before, after, x, d);
            if f != e {
                lemma_other_child_same(before, after, i, e, c, added, depth, f);
            } else {
                assert(!is_stale_twofold(before[d], depth));
            }
        }
        lemma_pending_same(before, after, i, visits, visits, 0, len, x);
        lemma_pending_update(after, i, visits, e, weight, 0, len, x);
        assert(is_ancestor(after, x, c) == (x == c || is_ancestor(after, x, i)));
        if is_ancestor(after, x, i) {
            lemma_ancestor_below(after, x, i);
        }
        if x < before.len() {
            assert(balanced(start, before, i, visits, items, k0, limit - left, x));
            if x == c {
                if is_ancestor(after, x, i) {
                    lemma_ancestor_below(after, x, i);
                }
            } else if is_ancestor(before, x, i) && x != i {
                assert(fewer_visits(before[x], after[x]));
            }
        } else {
            lemma_items_load_newer(after, items, items.len() as int, x);
            lemma_items_load_newer(after, items, k0, x);
            assert forall|f: int| 0 <= f < len && #[trigger] visits[f] > 0 implies (
            after[i].children@[f] matches Some(d) ==> d < x) by {
                assert(before[i].children@[f] is Some);
            }
            lemma_pending_newer(after, i, visits, len, x);
        }
    }
}

/// Giving visits to one child leaves its siblings as they are.
proof fn lemma_other_child_same<S: Scalar>(
    before: Seq<Node<S>>,
    after: Seq<Node<S>>,
    i: int,
    e: int,
    c: int,
    added: int,
    depth: u16,
    f: int,
)
    requires
        well_linked(before),
        0 <= i < before.len(),
        0 <= e < before[i].children@.len(),
        0 <= f < before[i].children@.len(),
        f != e,
        before[i].children@[f] is Some,
        gave(before, after, i, e, c, added, depth),
    ensures
        after[i].children@[f] == before[i].children@[f],
        after[before[i].children@[f]->Some_0 as int] == before[before[i].children@[f]->Some_0 as int],
{
    assert(node_linked(before, i));
    let d = before[i].children@[f]->Some_0 as int;
    assert(before[d].edge_index == f);
    if is_ancestor(before, d, i) {
        lemma_ancestor_below(before, d, i);
    }
    assert(after[d].parent == before[d].parent);
    if d == c {
        assert(before[i].children@[e] is Some);
        assert(before[c].edge_index == e);
    }
}


/// The depth one step further down.
pub open spec fn deeper(depth: u16) -> u16 {
    if depth == u16::MAX {
        0
    } else {
        (depth + 1) as u16
    }
}

/// An entry is a visit to a child of node `i`, with the moves that lead there.
pub open spec fn visits_child<S: Scalar>(
    nodes: Seq<Node<S>>,
    item: NodeToProcess<S>,
    i: int,
    path: Seq<Move>,
    depth: u16,
) -> bool {
    &&& item.node_idx < nodes.len()
    &&& item.is_pending(item.node_idx, deeper(depth), 1, 0, false)
    &&& nodes[item.node_idx as int].parent == Some(i as usize)
    &&& nodes[item.node_idx as int].edge_index < nodes[i].edges@.len()
    &&& item.moves_to_visit@ == path.push(
        nodes[i].edges@[nodes[item.node_idx as int].edge_index as int].mv,
    )
}

/// The counters of all nodes that are not above node `i` have room for `limit`
/// further visits.
pub open spec fn has_room_below<S>(nodes: Seq<Node<S>>, i: int, limit: int) -> bool {
    forall|x: int|
        0 <= x < nodes.len() && !is_ancestor(nodes, x, i) ==> (#[trigger] nodes[x]).n
            + nodes[x].n_in_flight + limit < u32::MAX
}

proof fn lemma_spread_begins<S: Scalar>(
    nodes: Seq<Node<S>>,
    i: int,
    visits: Seq<u32>,
    items: Seq<NodeToProcess<S>>,
    limit: int,
    depth: u16,
)
    requires
        well_linked(nodes),
        0 <= i < nodes.len(),
        visits.len() <= nodes[i].children@.len(),
        forall|e: int| 0 <= e < visits.len() ==> visits[e] == 0,
        items_in_tree(nodes, items),
    ensures
        spreading(nodes, nodes, i, visits, items, items.len() as int, limit, limit, depth),
{
    lemma_pending_zero(nodes, i, visits, 0, visits.len() as int, 0);
    assert forall|x: int| 0 <= x < nodes.len() implies #[trigger] balanced(
        nodes,
        nodes,
        i,
        visits,
        items,
        items.len() as int,
        0,
        x,
    ) by {
        lemma_pending_zero(nodes, i, visits, 0, visits.len() as int, x);
    }
}

/// What spreading visits over the edges of a node reads.
pub open spec fn spread_of<'a, S: Scalar>(
    context: SelectionContext<'a, S>,
    nodes: Seq<Node<S>>,
    i: int,
    limit: u32,
    is_root: bool,
    best_n: u32,
    depth: u16,
    path: Seq<Move>,
) -> Spread<'a, S> {
    Spread {
        context,
        i,
        is_root,
        best_n,
        depth,
        path,
        limit,
        factor: puct_factor(*context.params, nodes[i], is_root),
        len: needed_edges(context, nodes[i], limit as int, is_root),
    }
}

/// Spreads visits over the edges of an expanded node, always to the edge with the
/// best score, and returns how many are left for the child behind each edge.
///
/// Each leaf that can be visited takes one visit, which becomes an entry of the
/// batch; the visits left for a leaf will collide. No visit is lost.
#[verifier::spinoff_prover]
#[verifier::rlimit(60)]
pub(crate) fn spread_visits<S: Scalar>(
    context: &SelectionContext<S>,
    tree: &mut NodeTree<S>,
    node_idx: usize,
    limit: u32,
    is_root: bool,
    best_n: u32,
    depth: u16,
    path: &Vec<Move>,
    picked: &mut Vec<NodeToProcess<S>>,
    max_limit: &mut u32,
) -> (r: Result<Vec<u32>, EnginError>)
    requires
        old(tree).wf(),
        node_idx < old(tree).nodes().len(),
        old(tree).nodes().len() + limit < usize::MAX,
        limit < u32::MAX,
        twofolds_are_leaves(old(tree).nodes()),
        items_in_tree(old(tree).nodes(), old(picked)@),
        has_room_below(old(tree).nodes(), node_idx as int, limit as int),
    ensures
        final(tree).wf(),
        *final(tree) == (NodeTree { arena: final(tree).arena, ..*old(tree) }),
        twofolds_are_leaves(final(tree).nodes()),
        spread_frame(old(tree).nodes(), final(tree).nodes(), node_idx as int),
        has_choice(
            *context,
            old(tree).nodes(),
            node_idx as int,
            limit as int,
            is_root,
            best_n,
        ) ==> r is Ok,
        r matches Err(error) ==> error == EnginError::Internal("expanded node offers no edge")
            && exists|t: SpreadState<S>|
            #[trigger] spread_of(
                *context,
                old(tree).nodes(),
                node_idx as int,
                limit,
                is_root,
                best_n,
                depth,
                path@,
            ).leads_to(old(tree).nodes(), old(picked)@, *old(max_limit), t) && t.left > 0
                && leaders_of(
                t.candidates,
                needed_edges(*context, old(tree).nodes()[node_idx as int], limit as int, is_root),
            ).best is None,
        r matches Ok(visits) ==> {
            &&& spreading(
                old(tree).nodes(),
                final(tree).nodes(),
                node_idx as int,
                visits@,
                final(picked)@,
                old(picked)@.len() as int,
                limit as int,
                0,
                depth,
            )
            &&& old(picked)@.len() <= final(picked)@.len()
            &&& final(picked)@.take(old(picked)@.len() as int) == old(picked)@
            &&& forall|k: int|
                old(picked)@.len() <= k < final(picked)@.len() ==> visits_child(
                    final(tree).nodes(),
                    #[trigger] final(picked)@[k],
                    node_idx as int,
                    path@,
                    depth,
                )
            &&& visits@.len() <= final(tree).nodes()[node_idx as int].edges@.len()
            &&& spread_of(
                *context,
                old(tree).nodes(),
                node_idx as int,
                limit,
                is_root,
                best_n,
                depth,
                path@,
            ).is_spread(
                old(tree).nodes(),
                old(picked)@,
                *old(max_limit),
                final(tree).nodes(),
                visits@,
                final(picked)@,
                *final(max_limit),
            )
        },
{
    let ghost start = tree.nodes();
    let ghost i = node_idx as int;
    let ghost k0 = picked@.len() as int;
    let ghost spread = spread_of(*context, start, i, limit, is_root, best_n, depth, path@);
    let edge_count: usize = tree.node(node_idx).num_edges();
    let wanted: u64 = tree.node(node_idx).n_started() as u64 + limit as u64 + 2;
    let len: usize = if is_root && !context.root_move_filter.is_empty() {
        edge_count
    } else if wanted < edge_count as u64 {
        wanted as usize
    } else {
        edge_count
    };
    proof {
        assert(node_linked(start, i));
        assert(len == needed_edges(*context, start[i], limit as int, is_root));
        assert forall|e: int| 0 <= e < len implies #[trigger] child_started(start, i, e) + limit
            < u32::MAX by {
            match start[i].children@[e] {
                Some(c) => {
                    if is_ancestor(start, c as int, i) {
                        lemma_ancestor_below(start, c as int, i);
                    }
                    assert(start[c as int].n + start[c as int].n_in_flight + limit < u32::MAX);
                },
                None => {},
            }
        }
        assert(forall|e: int| 0 <= e < len ==> #[trigger] child_started(start, i, e) < u32::MAX);
    }
    let draws: S = draw_score(context.params, context.root_is_black, depth % 2 == 0);
    let factor: S = compute_puct_factor(context.params, tree.node(node_idx), is_root);
    let mut candidates: Candidates<S> = fill_candidates(
        context,
        tree,
        node_idx,
        len,
        is_root,
        best_n,
        draws,
    );
    let mut visits: Vec<u32> = Vec::new();
    let mut e: usize = 0;
    while e < len
        invariant
            e <= len,
            visits@.len() == e,
            forall|k: int| 0 <= k < e ==> visits@[k] == 0,
        decreases len - e,
    {
        visits.push(0);
        e += 1;
    }
    let ghost chosen = choose|e: int|
        0 <= e < needed_edges(*context, start[i], limit as int, is_root) && #[trigger] is_choice(
            *context,
            start[i],
            e,
            is_root,
            best_n,
        );
    let ghost owed = has_choice(*context, start, i, limit as int, is_root, best_n);
    let mut left: u32 = limit;
    proof {
        lemma_spread_begins(start, i, visits@, picked@, limit as int, depth);
        assert(picked@.take(k0) =~= picked@);
        assert forall|f: int| 0 <= f < len implies #[trigger] candidates.n_started@[f] + left
            < u32::MAX by {
            assert(is_entered(candidates, *context, start, i, f, is_root, best_n, draws));
            assert(child_started(start, i, f) + limit < u32::MAX);
        }
        if owed {
            assert(is_entered(candidates, *context, start, i, chosen, is_root, best_n, draws));
        }
        assert(visits@ =~= Seq::new(len as nat, |e: int| 0u32));
        let first = SpreadState {
            nodes: start,
            candidates,
            visits: visits@,
            items: picked@,
            left,
            max_limit: *max_limit,
        };
        assert(spread.begins(first)) by {
            assert forall|e: int| 0 <= e < spread.len implies #[trigger] is_entered(
                candidates,
                spread.context,
                start,
                i,
                e,
                is_root,
                best_n,
                spread.draws(),
            ) by {
                assert(is_entered(candidates, *context, start, i, e, is_root, best_n, draws));
            }
        }
        spread.lemma_spread_begins(first);
    }
    while left > 0
        invariant
            spread == spread_of(*context, start, i, limit, is_root, best_n, depth, path@),
            spread.len == len,
            spread.factor == factor,
            spread.leads_to(
                start,
                old(picked)@,
                *old(max_limit),
                SpreadState {
                    nodes: tree.nodes(),
                    candidates,
                    visits: visits@,
                    items: picked@,
                    left,
                    max_limit: *max_limit,
                },
            ),
            tree.wf(),
            *tree == (NodeTree { arena: tree.arena, ..*old(tree) }),
            start == old(tree).nodes(),
            well_linked(start),
            i == node_idx < start.len(),
            k0 == old(picked)@.len(),
            start.len() + limit < usize::MAX,
            twofolds_are_leaves(tree.nodes()),
            has_room_below(start, i, limit as int),
            left <= limit,
            len <= start[i].edges@.len(),
            visits@.len() == len,
            candidates.wf(len as int),
            spreading(
                start,
                tree.nodes(),
                i,
                visits@,
                picked@,
                k0,
                limit as int,
                left as int,
                depth,
            ),
            forall|f: int| 0 <= f < len ==> #[trigger] candidates.n_started@[f] + left < u32::MAX,
            owed == has_choice(*context, start, i, limit as int, is_root, best_n),
            owed ==> 0 <= chosen < len && is_choice(*context, start[i], chosen, is_root, best_n)
                && candidates.admissible@[chosen],
            picked@.take(k0) == old(picked)@,
            forall|k: int|
                k0 <= k < picked@.len() ==> visits_child(
                    tree.nodes(),
                    #[trigger] picked@[k],
                    i,
                    path@,
                    depth,
                ),
        decreases left,
    {
        let ghost s0 = SpreadState {
            nodes: tree.nodes(),
            candidates,
            visits: visits@,
            items: picked@,
            left,
            max_limit: *max_limit,
        };
        let leaders: Leaders<S> = scan_edges(&candidates, len);
        proof {
            lemma_leaders_admissible(candidates, len as int);
            if owed {
                lemma_leaders_exist(candidates, len as int, chosen);
            }
        }
        let best: usize = match leaders.best {
            Some(edge) => edge,
            None => {
                return Err(EnginError::Internal("expanded node offers no edge"));
            },
        };
        assert(candidates.n_started@[best as int] + left < u32::MAX);
        let new_visits: u32 = match leaders.second {
            Some(second) => {
                let estimate: u32 = estimate_visits(&candidates, best, second, factor, len);
                if estimate < *max_limit {
                    *max_limit = estimate;
                }
                if estimate < left {
                    estimate
                } else {
                    left
                }
            },
            None => left,
        };
        let ghost before = tree.nodes();
        let ghost items = picked@;
        let ghost weights = visits@;
        let ghost b = best as int;
        proof {
            assert(node_linked(before, i));
            lemma_pending_nonneg_total(weights, len as int);
            lemma_items_load_between(before, items, k0, items.len() as int, 0);
            match before[i].children@[b] {
                Some(c) => {
                    let x = c as int;
                    assert(balanced(
                        start,
                        before,
                        i,
                        weights,
                        items,
                        k0,
                        limit - left,
                        x,
                    ));
                    lemma_items_load_between(before, items, k0, items.len() as int, x);
                    lemma_pending_bound(before, i, weights, 0, len as int, x);
                    if is_ancestor(before, x, i) {
                        lemma_ancestor_below(before, x, i);
                    }
                    if x < start.len() {
                        if is_ancestor(start, x, i) {
                            lemma_ancestor_below(start, x, i);
                        }
                        assert(start[x].n + start[x].n_in_flight + limit < u32::MAX);
                    }
                },
                None => {},
            }
        }
        let given: Given = give_visits(tree, node_idx, best, new_visits, depth);
        proof {
            lemma_pending_entry(weights, 0, len as int, b);
            assert(node_linked(tree.nodes(), i));
            assert forall|j: int|
                0 <= j < tree.nodes().len() && (#[trigger] tree.nodes()[j]).terminal
                    == Terminal::TwoFold implies tree.nodes()[j].edges@.len() == 0 by {
                let c = given.child_idx as int;
                if j < before.len() && j != c && j != i && is_ancestor(before, j, i) {
                    assert(fewer_visits(before[j], tree.nodes()[j]));
                }
                if j < before.len() {
                    assert(before[j].terminal == Terminal::TwoFold ==> before[j].edges@.len() == 0);
                }
            }
        }
        if given.started {
            candidates.n_started[best] = candidates.n_started[best] + if given.expanded {
                new_visits
            } else {
                1
            };
            let score: S = candidates.utility[best].plus(
                candidates.policy[best].times(factor).over(
                    S::count(1 + candidates.n_started[best]),
                ),
            );
            candidates.score[best] = score;
        }
        let after_visits: u32 = if given.started && !given.expanded {
            let mut item: NodeToProcess<S> = NodeToProcess::visit(
                given.child_idx,
                depth.wrapping_add(1),
            );
            let mut moves: Vec<Move> = copy_moves(path);
            moves.push(tree.node(node_idx).edge(best).mv);
            item.moves_to_visit = moves;
            picked.push(item);
            visits[best] + (new_visits - 1)
        } else {
            visits[best] + new_visits
        };
        visits[best] = after_visits;
        let choosable: bool = is_choosable(context, tree, node_idx, best, is_root, best_n);
        candidates.admissible[best] = choosable;
        proof {
            let c = given.child_idx as int;
            let added = if given.expanded {
                new_visits as int
            } else if given.started {
                1
            } else {
                0
            };
            if picked@.len() > items.len() {
                assert(picked@.drop_last() =~= items);
            }
            lemma_spread_step(
                start,
                before,
                tree.nodes(),
                i,
                b,
                c,
                added,
                weights,
                after_visits,
                items,
                picked@,
                k0,
                limit as int,
                left as int,
                new_visits as int,
                depth,
            );
            assert(picked@.take(k0) =~= items.take(k0));
            assert forall|k: int| k0 <= k < picked@.len() implies visits_child(
                tree.nodes(),
                #[trigger] picked@[k],
                i,
                path@,
                depth,
            ) by {
                if k < items.len() {
                    assert(picked@[k] == items[k]);
                    assert(visits_child(before, items[k], i, path@, depth));
                    let t = items[k].node_idx as int;
                    assert(tree.nodes()[t].parent == before[t].parent);
                    assert(node_linked(before, t));
                    if is_ancestor(before, t, i) {
                        lemma_ancestor_below(before, t, i);
                    }
                    assert(tree.nodes()[t].edge_index == before[t].edge_index);
                }
            }
        }
        left = left - new_visits;
        proof {
            let s1 = SpreadState {
                nodes: tree.nodes(),
                candidates,
                visits: visits@,
                items: picked@,
                left,
                max_limit: *max_limit,
            };
            assert(spread.is_step(s0, s1, given.child_idx as int)) by {
                reveal(Spread::is_step);
                let started = if given.expanded {
                    new_visits
                } else if given.started {
                    1u32
                } else {
                    0u32
                };
                assert(candidates.n_started@ =~= s0.candidates.n_started@.update(
                    b,
                    (s0.candidates.n_started@[b] + started) as u32,
                ));
                assert(spread.is_noted(s0.candidates, candidates, tree.nodes(), b, started));
                assert(visits@ =~= s0.visits.update(b, visits@[b]));
            }
            spread.lemma_spread_goes_on(
                start,
                old(picked)@,
                *old(max_limit),
                s0,
                s1,
                given.child_idx as int,
            );
        }
    }
    Ok(visits)
}

proof fn lemma_pending_nonneg_total(visits: Seq<u32>, to: int)
    requires
        to <= visits.len(),
    ensures
        0 <= pending_total(visits, 0, to),
{
    crate::classic::loads::lemma_pending_nonnegative(visits, 0, to);
}

} // verus!
