//! The order of the edges of a node once a search has visited them.
use vstd::prelude::*;

use crate::classic::node::{prior_bits, Node, Terminal};
use crate::classic::params::SearchParams;
use crate::classic::picking::{draw_score, draw_score_at};
use crate::classic::tree::NodeTree;
use crate::exact::rounds_by;
use crate::position::{contains_move, Move};
use crate::scalar::Scalar;
use crate::sorting::{ranked_by, sort_by, Comparison};

verus! {

/// The group that an edge belongs to; groups are listed from the worst to the best.
#[derive(Clone, Copy, Debug, PartialEq, Eq, Structural)]
pub enum BestEdgeRank {
    TerminalLoss,
    TablebaseLoss,
    NonTerminal,
    TablebaseWin,
    TerminalWin,
}

impl BestEdgeRank {
    /// The place of a group in the list.
    pub open spec fn place(self) -> int {
        match self {
            BestEdgeRank::TerminalLoss => 0,
            BestEdgeRank::TablebaseLoss => 1,
            BestEdgeRank::NonTerminal => 2,
            BestEdgeRank::TablebaseWin => 3,
            BestEdgeRank::TerminalWin => 4,
        }
    }

    fn number(self) -> (r: u8)
        ensures
            r == self.place(),
    {
        match self {
            BestEdgeRank::TerminalLoss => 0,
            BestEdgeRank::TablebaseLoss => 1,
            BestEdgeRank::NonTerminal => 2,
            BestEdgeRank::TablebaseWin => 3,
            BestEdgeRank::TerminalWin => 4,
        }
    }
}

/// The group of a node: only visited terminal nodes that are no draws stand out.
pub open spec fn rank_of<S: Scalar>(node: Option<Node<S>>) -> BestEdgeRank {
    match node {
        None => BestEdgeRank::NonTerminal,
        Some(node) => if node.n == 0 || !node.spec_is_terminal() || node.wl.spec_same(
            S::spec_zero(),
        ) {
            BestEdgeRank::NonTerminal
        } else if node.terminal == Terminal::Tablebase {
            if S::spec_zero().spec_above(node.wl) {
                BestEdgeRank::TablebaseLoss
            } else {
                BestEdgeRank::TablebaseWin
            }
        } else if S::spec_zero().spec_above(node.wl) {
            BestEdgeRank::TerminalLoss
        } else {
            BestEdgeRank::TerminalWin
        },
    }
}

fn best_edge_rank<S: Scalar>(node: &Node<S>) -> (r: BestEdgeRank)
    ensures
        r == rank_of(Some(*node)),
{
    if node.n() == 0 || !node.is_terminal() || node.wl().same(S::zero()) {
        return BestEdgeRank::NonTerminal;
    }
    if node.is_tablebase_terminal() {
        if S::zero().above(node.wl()) {
            BestEdgeRank::TablebaseLoss
        } else {
            BestEdgeRank::TablebaseWin
        }
    } else if S::zero().above(node.wl()) {
        BestEdgeRank::TerminalLoss
    } else {
        BestEdgeRank::TerminalWin
    }
}

/// The node behind an edge, if there is one.
pub open spec fn child_node<S>(nodes: Seq<Node<S>>, i: int, e: int) -> Option<Node<S>> {
    match nodes[i].children@[e] {
        Some(c) => Some(nodes[c as int]),
        None => None,
    }
}

/// Whether a node is terminal and has been visited.
pub open spec fn is_visited_terminal<S: Scalar>(node: Option<Node<S>>) -> bool {
    node matches Some(node) && node.n != 0 && node.spec_is_terminal()
}

/// Completed visits, 0 where there is no node.
pub open spec fn visits_of<S>(node: Option<Node<S>>) -> int {
    match node {
        Some(node) => node.n as int,
        None => 0,
    }
}

/// The value with draws counted, 0 where there is no node.
pub open spec fn value_of<S: Scalar>(node: Option<Node<S>>, draws: S) -> S {
    match node {
        Some(node) => node.spec_q(draws),
        None => S::spec_zero(),
    }
}

/// The length, 0 where there is no node.
pub open spec fn length_of<S: Scalar>(node: Option<Node<S>>) -> S {
    match node {
        Some(node) => node.m,
        None => S::spec_zero(),
    }
}

/// Whether edge `a` of node `i` comes before edge `b`.
///
/// A better group comes first. Among won edges the shorter line comes first, among
/// lost ones the longer. Two visited terminal draws are ordered by kind, then by
/// length; other edges by visits, then by value, then by prior.
pub open spec fn is_better<S: Scalar>(nodes: Seq<Node<S>>, i: int, a: int, b: int, draws: S) -> bool {
    let candidate = child_node(nodes, i, a);
    let current = child_node(nodes, i, b);
    let rank = rank_of(candidate);
    if rank != rank_of(current) {
        rank.place() > rank_of(current).place()
    } else if rank == BestEdgeRank::NonTerminal && is_visited_terminal(candidate)
        && is_visited_terminal(current) {
        let candidate_tablebase = candidate->Some_0.terminal == Terminal::Tablebase;
        let current_tablebase = current->Some_0.terminal == Terminal::Tablebase;
        if candidate_tablebase != current_tablebase {
            !candidate_tablebase
        } else {
            current->Some_0.m.spec_above(candidate->Some_0.m)
        }
    } else if rank == BestEdgeRank::NonTerminal {
        if visits_of(candidate) != visits_of(current) {
            visits_of(candidate) > visits_of(current)
        } else if !value_of(candidate, draws).spec_same(value_of(current, draws)) {
            value_of(candidate, draws).spec_above(value_of(current, draws))
        } else {
            S::spec_from_bits(prior_bits(nodes[i].edges@[a].p)).spec_above(
                S::spec_from_bits(prior_bits(nodes[i].edges@[b].p)),
            )
        }
    } else if rank.place() > BestEdgeRank::NonTerminal.place() {
        length_of(current).spec_above(length_of(candidate))
    } else {
        length_of(candidate).spec_above(length_of(current))
    }
}

/// A win comes before anything undecided, and that before a loss, however often the edges
/// were visited.
pub proof fn law_wins_first_and_losses_last<S: Scalar>(
    nodes: Seq<Node<S>>,
    i: int,
    a: int,
    b: int,
    draws: S,
)
    requires
        rank_of(child_node(nodes, i, a)).place() > rank_of(child_node(nodes, i, b)).place(),
    ensures
        is_better(nodes, i, a, b, draws),
        !is_better(nodes, i, b, a, draws),
        BestEdgeRank::TerminalWin.place() > BestEdgeRank::TablebaseWin.place()
            > BestEdgeRank::NonTerminal.place() > BestEdgeRank::TablebaseLoss.place()
            > BestEdgeRank::TerminalLoss.place(),
{
}

/// Whether one edge of a node comes before another.
pub fn best_child_edge_is_better<S: Scalar>(
    tree: &NodeTree<S>,
    parent: usize,
    edge_idx: usize,
    best_idx: usize,
    draws: S,
) -> (r: bool)
    requires
        tree.wf(),
        parent < tree.nodes().len(),
        edge_idx < tree.nodes()[parent as int].edges@.len(),
        best_idx < tree.nodes()[parent as int].edges@.len(),
    ensures
        r == is_better(tree.nodes(), parent as int, edge_idx as int, best_idx as int, draws),
{
    let candidate = tree.edge_and_node(parent, edge_idx);
    let current = tree.edge_and_node(parent, best_idx);
    let candidate_rank: BestEdgeRank = match candidate.node {
        Some(node) => best_edge_rank(node),
        None => BestEdgeRank::NonTerminal,
    };
    let current_rank: BestEdgeRank = match current.node {
        Some(node) => best_edge_rank(node),
        None => BestEdgeRank::NonTerminal,
    };
    if candidate_rank != current_rank {
        return candidate_rank.number() > current_rank.number();
    }
    match (candidate.node, current.node) {
        (Some(a), Some(b)) => {
            if candidate_rank == BestEdgeRank::NonTerminal && a.n() != 0 && a.is_terminal()
                && b.n() != 0 && b.is_terminal() {
                if a.is_tablebase_terminal() != b.is_tablebase_terminal() {
                    return !a.is_tablebase_terminal();
                }
                return b.m().above(a.m());
            }
        },
        _ => {},
    }
    if candidate_rank == BestEdgeRank::NonTerminal {
        let candidate_n: u32 = match candidate.node {
            Some(node) => node.n(),
            None => 0,
        };
        let current_n: u32 = match current.node {
            Some(node) => node.n(),
            None => 0,
        };
        if candidate_n != current_n {
            return candidate_n > current_n;
        }
        let candidate_q: S = match candidate.node {
            Some(node) => node.q(draws),
            None => S::zero(),
        };
        let current_q: S = match current.node {
            Some(node) => node.q(draws),
            None => S::zero(),
        };
        if !candidate_q.same(current_q) {
            return candidate_q.above(current_q);
        }
        return candidate.p().above(current.p());
    }
    let candidate_m: S = match candidate.node {
        Some(node) => node.m(),
        None => S::zero(),
    };
    let current_m: S = match current.node {
        Some(node) => node.m(),
        None => S::zero(),
    };
    if candidate_rank.number() > BestEdgeRank::NonTerminal.number() {
        current_m.above(candidate_m)
    } else {
        candidate_m.above(current_m)
    }
}

/// Whether an edge is to be listed: at the head of the tree only the moves that
/// the filter allows are.
pub open spec fn is_listed<S: Scalar>(
    tree: NodeTree<S>,
    parent: int,
    e: int,
    filter: Seq<Move>,
) -> bool {
    tree.current_head != Some(parent as usize) || filter.len() == 0 || filter.contains(
        tree.nodes()[parent].edges@[e].mv,
    )
}

/// The indices of the listed edges among the first `k`, in order.
pub open spec fn listed_edges<S: Scalar>(
    tree: NodeTree<S>,
    parent: int,
    k: int,
    filter: Seq<Move>,
) -> Seq<usize>
    decreases k,
{
    if k <= 0 {
        Seq::empty()
    } else if is_listed(tree, parent, k - 1, filter) {
        listed_edges(tree, parent, k - 1, filter).push((k - 1) as usize)
    } else {
        listed_edges(tree, parent, k - 1, filter)
    }
}

pub proof fn lemma_listed_in_range<S: Scalar>(
    tree: NodeTree<S>,
    parent: int,
    k: int,
    filter: Seq<Move>,
)
    requires
        0 <= k <= usize::MAX,
    ensures
        forall|e: usize|
            #[trigger] listed_edges(tree, parent, k, filter).contains(e) ==> e < k && is_listed(
                tree,
                parent,
                e as int,
                filter,
            ),
    decreases k,
{
    if k > 0 {
        lemma_listed_in_range(tree, parent, k - 1, filter);
        assert forall|e: usize| #[trigger]
            listed_edges(tree, parent, k, filter).contains(e) implies e < k && is_listed(
            tree,
            parent,
            e as int,
            filter,
        ) by {
            let rest = listed_edges(tree, parent, k - 1, filter);
            let all = listed_edges(tree, parent, k, filter);
            let at = choose|j: int| 0 <= j < all.len() && all[j] == e;
            if at < rest.len() {
                assert(rest[at] == e);
                assert(rest.contains(e));
            }
        }
    }
}

/// Orders the edges of a node, given by index.
struct ByRank<'a, S> {
    tree: &'a NodeTree<S>,
    parent: usize,
    draws: S,
}

impl<'a, S: Scalar> Comparison<usize> for ByRank<'a, S> {
    closed spec fn can_compare(&self, a: usize, b: usize) -> bool {
        are_comparable(*self.tree, self.parent as int, a as int, b as int)
    }

    closed spec fn spec_is_better(&self, a: usize, b: usize) -> bool {
        is_better(self.tree.nodes(), self.parent as int, a as int, b as int, self.draws)
    }

    fn is_better(&self, a: usize, b: usize) -> (r: bool) {
        best_child_edge_is_better(self.tree, self.parent, a, b, self.draws)
    }
}

/// Whether two numbers are those of edges of a node.
pub open spec fn are_comparable<S: Scalar>(tree: NodeTree<S>, parent: int, a: int, b: int) -> bool {
    &&& tree.wf()
    &&& 0 <= parent < tree.nodes().len()
    &&& 0 <= a < tree.nodes()[parent].edges@.len()
    &&& 0 <= b < tree.nodes()[parent].edges@.len()
}

/// A complete list of the listed edges, best first.
pub open spec fn is_ranking<S: Scalar>(
    order: Seq<usize>,
    tree: NodeTree<S>,
    parent: int,
    draws: S,
    filter: Seq<Move>,
) -> bool {
    &&& order.to_multiset() == listed_edges(
        tree,
        parent,
        tree.nodes()[parent].edges@.len() as int,
        filter,
    ).to_multiset()
    &&& ranked_by(
        order,
        |a: usize, b: usize| is_better(tree.nodes(), parent, a as int, b as int, draws),
    )
}

/// The best `count` edges of a node, best first. Nothing is known of a node that
/// has not been visited.
pub fn best_child_edges<S: Scalar>(
    tree: &NodeTree<S>,
    parent: usize,
    params: &SearchParams<S>,
    root_is_black: bool,
    count: usize,
    is_odd_depth: bool,
    root_move_filter: &Vec<Move>,
) -> (r: Vec<usize>)
    requires
        tree.wf(),
        parent < tree.nodes().len(),
    ensures
        tree.nodes()[parent as int].n == 0 ==> r@.len() == 0,
        tree.nodes()[parent as int].n > 0 ==> exists|order: Seq<usize>|
            #[trigger] is_ranking(
                order,
                *tree,
                parent as int,
                draw_score_at(*params, root_is_black, is_odd_depth),
                root_move_filter@,
            ) && r@ == order.take(
                if count < order.len() {
                    count as int
                } else {
                    order.len() as int
                },
            ),
        forall|k: int|
            0 <= k < r@.len() ==> #[trigger] r@[k] < tree.nodes()[parent as int].edges@.len()
                && is_listed(*tree, parent as int, r@[k] as int, root_move_filter@),
        r@.len() <= count,
        r@.len() == 0 && count > 0 && tree.nodes()[parent as int].n > 0 ==> listed_edges(
            *tree,
            parent as int,
            tree.nodes()[parent as int].edges@.len() as int,
            root_move_filter@,
        ).len() == 0,
{
    if tree.node(parent).n() == 0 {
        return Vec::new();
    }
    let draws: S = draw_score(params, root_is_black, is_odd_depth);
    let is_root: bool = match tree.current_head {
        Some(head) => head == parent,
        None => false,
    };
    let edge_count: usize = tree.node(parent).num_edges();
    let mut edges: Vec<usize> = Vec::new();
    let mut e: usize = 0;
    while e < edge_count
        invariant
            tree.wf(),
            parent < tree.nodes().len(),
            edge_count == tree.nodes()[parent as int].edges@.len(),
            e <= edge_count,
            is_root == (tree.current_head == Some(parent)),
            edges@ == listed_edges(*tree, parent as int, e as int, root_move_filter@),
        decreases edge_count - e,
    {
        if !is_root || root_move_filter.is_empty() || contains_move(
            root_move_filter,
            tree.node(parent).edge(e).mv,
        ) {
            edges.push(e);
        }
        e += 1;
    }
    proof {
        lemma_listed_in_range(*tree, parent as int, edge_count as int, root_move_filter@);
    }
    let by_rank: ByRank<S> = ByRank { tree, parent, draws };
    let mut order: Vec<usize> = sort_by(&edges, &by_rank);
    proof {
        assert((|a: usize, b: usize| by_rank.spec_is_better(a, b)) =~= (|a: usize, b: usize|
            is_better(tree.nodes(), parent as int, a as int, b as int, draws)));
        assert(is_ranking(order@, *tree, parent as int, draws, root_move_filter@));
        assert forall|k: int| 0 <= k < order@.len() implies #[trigger] order@[k]
            < tree.nodes()[parent as int].edges@.len() && is_listed(
            *tree,
            parent as int,
            order@[k] as int,
            root_move_filter@,
        ) by {
            assert(order@.contains(order@[k]));
            assert(edges@.contains(order@[k]));
        }
    }
    let ghost full = order@;
    if count < order.len() {
        order.truncate(count);
    }
    assert(order@ =~= full.take(
        if count < full.len() {
            count as int
        } else {
            full.len() as int
        },
    ));
    order
}

/// Whether this is the best edge of a node: there is none before its first visit, nor
/// where no edge is listed.
pub open spec fn is_best_edge<S: Scalar>(
    best: Option<usize>,
    tree: NodeTree<S>,
    parent: int,
    draws: S,
    filter: Seq<Move>,
) -> bool {
    &&& tree.nodes()[parent].n == 0 ==> best is None
    &&& tree.nodes()[parent].n > 0 ==> exists|order: Seq<usize>| #[trigger]
        is_ranking(order, tree, parent, draws, filter) && best == (if order.len() > 0 {
            Some(order[0])
        } else {
            None
        })
}

/// The best edge of a node, if it has been visited and one is listed.
pub fn best_child_edge<S: Scalar>(
    tree: &NodeTree<S>,
    parent: usize,
    params: &SearchParams<S>,
    root_is_black: bool,
    is_odd_depth: bool,
    root_move_filter: &Vec<Move>,
) -> (r: Option<usize>)
    requires
        tree.wf(),
        parent < tree.nodes().len(),
    ensures
        is_best_edge(
            r,
            *tree,
            parent as int,
            draw_score_at(*params, root_is_black, is_odd_depth),
            root_move_filter@,
        ),
        r matches Some(e) ==> e < tree.nodes()[parent as int].edges@.len() && is_listed(
            *tree,
            parent as int,
            e as int,
            root_move_filter@,
        ),
{
    let best: Vec<usize> = best_child_edges(
        tree,
        parent,
        params,
        root_is_black,
        1,
        is_odd_depth,
        root_move_filter,
    );
    proof {
        if tree.nodes()[parent as int].n > 0 {
            let order = choose|order: Seq<usize>|
                #[trigger] is_ranking(
                    order,
                    *tree,
                    parent as int,
                    draw_score_at(*params, root_is_black, is_odd_depth),
                    root_move_filter@,
                ) && best@ == order.take(
                    if 1 < order.len() {
                        1int
                    } else {
                        order.len() as int
                    },
                );
            if order.len() > 0 {
                assert(best@[0] == order[0]);
            }
        }
    }
    if best.is_empty() {
        None
    } else {
        Some(best[0])
    }
}

/// A won edge comes before any other, the sooner won the earlier, and a lost edge after any
/// other, the later lost the earlier. Edges to nodes that are not terminal go by visits, then
/// by value, in which draws count as much as they are worth.
pub proof fn law_edges_are_ranked_by_result_then_visits<S: Scalar>(
    value: spec_fn(S) -> real,
    round: spec_fn(real) -> real,
    tree: NodeTree<S>,
    parent: usize,
    a: usize,
    b: usize,
    draws: S,
    r: bool,
)
    requires
        rounds_by(value, round),
        call_ensures(best_child_edge_is_better::<S>, (&tree, parent, a, b, draws), r),
        child_node(tree.nodes(), parent as int, a as int) is Some,
        child_node(tree.nodes(), parent as int, b as int) is Some,
        child_node(tree.nodes(), parent as int, a as int)->Some_0.n > 0,
        child_node(tree.nodes(), parent as int, b as int)->Some_0.n > 0,
        child_node(tree.nodes(), parent as int, a as int)->Some_0.terminal != Terminal::Tablebase,
        child_node(tree.nodes(), parent as int, b as int)->Some_0.terminal != Terminal::Tablebase,
    ensures
        ({
            let x = child_node(tree.nodes(), parent as int, a as int)->Some_0;
            let y = child_node(tree.nodes(), parent as int, b as int)->Some_0;
            let x_won = x.spec_is_terminal() && value(x.wl) > 0real;
            let y_won = y.spec_is_terminal() && value(y.wl) > 0real;
            let x_lost = x.spec_is_terminal() && value(x.wl) < 0real;
            let y_lost = y.spec_is_terminal() && value(y.wl) < 0real;
            &&& x_won && !y_won ==> r
            &&& !x_won && y_won ==> !r
            &&& x_lost && !y_lost ==> !r
            &&& !x_lost && y_lost ==> r
            &&& x_won && y_won ==> (r <==> value(x.m) < value(y.m))
            &&& x_lost && y_lost ==> (r <==> value(x.m) > value(y.m))
            &&& !x.spec_is_terminal() && !y.spec_is_terminal() && x.n != y.n ==> (r <==> x.n > y.n)
            &&& !x.spec_is_terminal() && !y.spec_is_terminal() && x.n == y.n && value(
                x.wl.spec_plus(draws.spec_times(x.d)),
            ) != value(y.wl.spec_plus(draws.spec_times(y.d))) ==> (r <==> value(
                x.wl.spec_plus(draws.spec_times(x.d)),
            ) > value(y.wl.spec_plus(draws.spec_times(y.d))))
        }),
{
}

} // verus!
