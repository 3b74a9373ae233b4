//! Choosing positions to evaluate ahead of time, to fill up a batch.
use vstd::prelude::*;

use crate::classic::node::{prior_bits, EdgeAndNode, Node};
use crate::classic::params::SearchParams;
use crate::classic::picking::{draw_score, draw_score_at};
use crate::classic::ranking::child_node;
use crate::classic::tree::{node_linked, NodeTree};
use crate::classic::uct::{compute_puct_factor, fpu_at, get_fpu, puct_factor};
use crate::position::{copy_moves, Move};
use crate::scalar::Scalar;
use crate::sorting::{ranked_by, sort_by, Comparison};

verus! {

/// How many positions may be added to a batch: none when the search is over or the
/// batch is empty or large enough.
pub fn prefetch_budget(used_batch_size: usize, max_prefetch_batch: u32, stop: bool) -> (r: Option<usize>)
    ensures
        r == (if stop || used_batch_size == 0 || used_batch_size >= max_prefetch_batch {
            None
        } else {
            Some((max_prefetch_batch - used_batch_size) as usize)
        }),
{
    if stop || used_batch_size == 0 || used_batch_size as u64 >= max_prefetch_batch as u64 {
        None
    } else {
        Some(max_prefetch_batch as usize - used_batch_size)
    }
}

/// An edge with the number by which edges are ordered, smallest first.
#[derive(Clone, Copy, Debug)]
pub struct Scored<S> {
    pub score: S,
    pub edge_idx: usize,
}

struct ByScore;

impl<S: Scalar> Comparison<Scored<S>> for ByScore {
    open spec fn can_compare(&self, a: Scored<S>, b: Scored<S>) -> bool {
        true
    }

    closed spec fn spec_is_better(&self, a: Scored<S>, b: Scored<S>) -> bool {
        a.score.spec_total_key() < b.score.spec_total_key()
    }

    fn is_better(&self, a: Scored<S>, b: Scored<S>) -> (r: bool) {
        a.score.total_key() < b.score.total_key()
    }
}

/// All visit counters can be counted one further.
pub open spec fn counters_open<S: Scalar>(nodes: Seq<Node<S>>) -> bool {
    forall|x: int| 0 <= x < nodes.len() ==> (#[trigger] nodes[x]).spec_n_started() < u32::MAX
}

/// The first `k` of some lists, one after the other.
pub open spec fn joined(parts: Seq<Seq<Seq<Move>>>, k: int) -> Seq<Seq<Move>>
    decreases k,
{
    if k <= 0 {
        Seq::empty()
    } else {
        joined(parts, k - 1) + parts[k - 1]
    }
}

proof fn lemma_joined_prefix(parts: Seq<Seq<Seq<Move>>>, part: Seq<Seq<Move>>, k: int)
    requires
        k <= parts.len(),
    ensures
        joined(parts.push(part), k) == joined(parts, k),
    decreases k,
{
    if k > 0 {
        lemma_joined_prefix(parts, part, k - 1);
    }
}

/// The lines of a plan from one place on.
pub open spec fn lines_from(plan: Seq<Vec<Move>>, from: int) -> Seq<Seq<Move>> {
    Seq::new((plan.len() - from) as nat, |k: int| plan[from + k]@)
}

/// What the choice of positions reads.
#[verifier::ext_equal]
pub struct Prefetch<S> {
    pub nodes: Seq<Node<S>>,
    pub head: Option<usize>,
    pub params: SearchParams<S>,
    pub root_is_black: bool,
    pub stop: bool,
}

impl<S: Scalar> Prefetch<S> {
    pub open spec fn draws(self, odd: bool) -> S {
        draw_score_at(self.params, self.root_is_black, odd)
    }

    pub open spec fn factor(self, i: int) -> S {
        puct_factor(self.params, self.nodes[i], self.head == Some(i as usize))
    }

    pub open spec fn fpu(self, i: int, odd: bool) -> S {
        fpu_at(self.params, self.nodes, i, self.head == Some(i as usize), self.draws(odd))
    }

    pub open spec fn prior(self, i: int, e: int) -> S {
        S::spec_from_bits(prior_bits(self.nodes[i].edges@[e].p))
    }

    pub open spec fn started(self, i: int, e: int) -> u32 {
        match child_node(self.nodes, i, e) {
            Some(node) => node.spec_n_started() as u32,
            None => 0,
        }
    }

    /// The value behind an edge, with a stand-in for one that has no visit.
    pub open spec fn value(self, i: int, e: int, stand_in: S, odd: bool) -> S {
        match child_node(self.nodes, i, e) {
            Some(node) => if node.n > 0 {
                node.spec_q(self.draws(odd))
            } else {
                stand_in
            },
            None => stand_in,
        }
    }

    /// The number by which the edges of a node are ordered: the selection score, negated.
    pub open spec fn score(self, i: int, e: int, odd: bool) -> S {
        self.factor(i).spec_times(self.prior(i, e)).spec_over(
            S::spec_count((1 + self.started(i, e)) as u32),
        ).spec_negated().spec_minus(self.value(i, e, self.fpu(i, odd), odd))
    }

    /// Those of the first `k` edges of a node whose prior is not zero.
    pub open spec fn candidates(self, i: int, odd: bool, k: int) -> Seq<Scored<S>>
        decreases k,
    {
        if k <= 0 {
            Seq::empty()
        } else {
            let before = self.candidates(i, odd, k - 1);
            if self.prior(i, k - 1).spec_same(S::spec_zero()) {
                before
            } else {
                before.push(
                    Scored { score: self.score(i, k - 1, odd), edge_idx: (k - 1) as usize },
                )
            }
        }
    }

    /// Whether this is an order of the candidates of a node, best first.
    #[verifier::opaque]
    pub open spec fn is_order(self, i: int, odd: bool, order: Seq<Scored<S>>) -> bool {
        &&& order.to_multiset() == self.candidates(
            i,
            odd,
            self.nodes[i].edges@.len() as int,
        ).to_multiset()
        &&& ranked_by(
            order,
            |a: Scored<S>, b: Scored<S>|
                a.score.spec_total_key() < b.score.spec_total_key(),
        )
        &&& forall|k: int|
            0 <= k < order.len() ==> (#[trigger] order[k]).edge_idx < self.nodes[i].edges@.len()
    }

    /// What the edge in place `k` may spend of what is left: as much as it could use before
    /// the next best would overtake it. The last edge may spend what the one before it might.
    pub open spec fn share(
        self,
        i: int,
        odd: bool,
        order: Seq<Scored<S>>,
        k: int,
        left: int,
        last_share: int,
    ) -> int {
        if k < order.len() - 1 {
            let e = order[k].edge_idx as int;
            let next = order[k + 1].score.spec_negated();
            let q = self.value(i, e, self.fpu(i, odd).spec_negated(), odd);
            let estimated = self.prior(i, e).spec_times(self.factor(i)).spec_over(
                next.spec_minus(q),
            ).spec_minus(S::spec_count(self.started(i, e))).spec_floor_count();
            if next.spec_above(q) && estimated + 1 < left {
                estimated + 1
            } else {
                left
            }
        } else {
            last_share
        }
    }

    /// Whether something was left for the edge in place `k`, and it got its share.
    pub open spec fn is_given(
        self,
        i: int,
        odd: bool,
        budget: int,
        order: Seq<Scored<S>>,
        parts: Seq<Seq<Seq<Move>>>,
        shares: Seq<int>,
        k: int,
    ) -> bool {
        &&& joined(parts, k).len() < budget
        &&& shares[k] == self.share(
            i,
            odd,
            order,
            k,
            budget - joined(parts, k).len(),
            if k == 0 {
                budget
            } else {
                shares[k - 1]
            },
        )
    }

    /// Whether the edges of a node, in order, were given their shares until the budget was
    /// spent, the edges ran out or the search stopped.
    #[verifier::opaque]
    pub open spec fn is_shared_out(
        self,
        i: int,
        odd: bool,
        budget: int,
        order: Seq<Scored<S>>,
        parts: Seq<Seq<Seq<Move>>>,
        shares: Seq<int>,
    ) -> bool {
        &&& parts.len() <= order.len()
        &&& shares.len() == parts.len()
        &&& self.stop ==> parts.len() == 0
        &&& forall|k: int|
            0 <= k < shares.len() ==> #[trigger] self.is_given(
                i,
                odd,
                budget,
                order,
                parts,
                shares,
                k,
            )
    }

    /// The node behind an edge.
    pub open spec fn child_behind(self, i: int, scored: Scored<S>) -> Option<usize> {
        self.nodes[i].children@[scored.edge_idx as int]
    }

    pub open spec fn move_of(self, i: int, scored: Scored<S>) -> Move {
        self.nodes[i].edges@[scored.edge_idx as int].mv
    }

    /// Whether the node behind an edge, if there is one, lies further down.
    pub open spec fn leads_down(self, i: int, scored: Scored<S>) -> bool {
        self.child_behind(i, scored) matches Some(c) ==> i < c < self.nodes.len()
    }

    /// Whether these are the lines that a budget buys below a node: the line to the node
    /// itself where it is unvisited, nothing below a node that waits for its first result or
    /// is terminal, and otherwise what the shares of its edges buy.
    #[verifier::opaque]
    pub open spec fn is_plan(
        self,
        node: Option<usize>,
        budget: int,
        odd: bool,
        path: Seq<Move>,
        lines: Seq<Seq<Move>>,
    ) -> bool
        decreases
                (match node {
                    Some(i) => self.nodes.len() - i,
                    None => 0,
                }),
    {
        if budget <= 0 {
            lines.len() == 0
        } else {
            match node {
                None => lines == seq![path],
                Some(i) => if i >= self.nodes.len() {
                    lines.len() == 0
                } else if self.nodes[i as int].spec_n_started() == 0 {
                    lines == seq![path]
                } else if self.nodes[i as int].n == 0 || self.nodes[i as int].spec_is_terminal() {
                    lines.len() == 0
                } else {
                    exists|order: Seq<Scored<S>>, parts: Seq<Seq<Seq<Move>>>, shares: Seq<int>|
                        {
                            &&& #[trigger] self.is_order(i as int, odd, order)
                            &&& #[trigger] self.is_shared_out(
                                i as int,
                                odd,
                                budget,
                                order,
                                parts,
                                shares,
                            )
                            &&& parts.len() == order.len() || self.stop || joined(
                                parts,
                                parts.len() as int,
                            ).len() >= budget
                            &&& lines == joined(parts, parts.len() as int)
                            &&& forall|k: int|
                                0 <= k < parts.len() ==> self.leads_down(
                                    i as int,
                                    #[trigger] order[k],
                                ) && self.is_plan(
                                    self.child_behind(i as int, order[k]),
                                    shares[k],
                                    !odd,
                                    path.push(self.move_of(i as int, order[k])),
                                    parts[k],
                                )
                        }
                },
            }
        }
    }

    /// Whether what the edge in place `k` bought is what its share buys.
    #[verifier::opaque]
    spec fn is_part(
        self,
        i: int,
        odd: bool,
        path: Seq<Move>,
        order: Seq<Scored<S>>,
        shares: Seq<int>,
        k: int,
        part: Seq<Seq<Move>>,
    ) -> bool {
        &&& self.leads_down(i, order[k])
        &&& self.is_plan(
            self.child_behind(i, order[k]),
            shares[k],
            !odd,
            path.push(self.move_of(i, order[k])),
            part,
        )
    }

    /// What is bought without looking at edges.
    proof fn lemma_plan_without_edges(
        self,
        node: Option<usize>,
        budget: int,
        odd: bool,
        path: Seq<Move>,
    )
        requires
            node matches Some(i) ==> i < self.nodes.len(),
        ensures
            budget <= 0 ==> self.is_plan(node, budget, odd, path, Seq::empty()),
            budget > 0 && (node matches Some(i) ==> self.nodes[i as int].spec_n_started() == 0)
                ==> self.is_plan(node, budget, odd, path, seq![path]),
            budget > 0 && (node matches Some(i) && self.nodes[i as int].spec_n_started() > 0 && (
            self.nodes[i as int].n == 0 || self.nodes[i as int].spec_is_terminal()))
                ==> self.is_plan(node, budget, odd, path, Seq::empty()),
    {
        reveal(Prefetch::is_plan);
    }

    proof fn lemma_order_in_range(self, i: int, odd: bool, order: Seq<Scored<S>>, k: int)
        requires
            self.is_order(i, odd, order),
            0 <= k < order.len(),
        ensures
            order[k].edge_idx < self.nodes[i].edges@.len(),
    {
        reveal(Prefetch::is_order);
    }

    /// One more edge has been given its share.
    proof fn lemma_shared_further(
        self,
        i: int,
        odd: bool,
        budget: int,
        order: Seq<Scored<S>>,
        parts: Seq<Seq<Seq<Move>>>,
        shares: Seq<int>,
        part: Seq<Seq<Move>>,
        share: int,
    )
        requires
            self.is_shared_out(i, odd, budget, order, parts, shares),
            parts.len() < order.len(),
            !self.stop,
            joined(parts, parts.len() as int).len() < budget,
            share == self.share(
                i,
                odd,
                order,
                parts.len() as int,
                budget - joined(parts, parts.len() as int).len(),
                if parts.len() == 0 {
                    budget
                } else {
                    shares[parts.len() - 1]
                },
            ),
        ensures
            shares.len() == parts.len(),
            self.is_shared_out(i, odd, budget, order, parts.push(part), shares.push(share)),
            joined(parts.push(part), (parts.len() + 1) as int) == joined(parts, parts.len() as int) + part,
    {
        reveal(Prefetch::is_shared_out);
        let longer = parts.push(part);
        let given = shares.push(share);
        lemma_joined_prefix(parts, part, parts.len() as int);
        assert forall|k: int| 0 <= k < given.len() implies #[trigger] self.is_given(
            i,
            odd,
            budget,
            order,
            longer,
            given,
            k,
        ) by {
            lemma_joined_prefix(parts, part, k);
            if k < parts.len() {
                assert(self.is_given(i, odd, budget, order, parts, shares, k));
                assert(given[k] == shares[k]);
            }
            if k > 0 {
                assert(given[k - 1] == shares[k - 1]);
            }
        }
    }

    /// What the shares of the edges of a node buy.
    proof fn lemma_plan_of_edges(
        self,
        i: usize,
        budget: int,
        odd: bool,
        path: Seq<Move>,
        order: Seq<Scored<S>>,
        parts: Seq<Seq<Seq<Move>>>,
        shares: Seq<int>,
    )
        requires
            budget > 0,
            i < self.nodes.len(),
            self.nodes[i as int].spec_n_started() > 0,
            self.nodes[i as int].n > 0,
            !self.nodes[i as int].spec_is_terminal(),
            self.is_order(i as int, odd, order),
            self.is_shared_out(i as int, odd, budget, order, parts, shares),
            parts.len() == order.len() || self.stop || joined(parts, parts.len() as int).len()
                >= budget,
            forall|k: int|
                0 <= k < parts.len() ==> self.is_part(
                    i as int,
                    odd,
                    path,
                    order,
                    shares,
                    k,
                    #[trigger] parts[k],
                ),
        ensures
            self.is_plan(Some(i), budget, odd, path, joined(parts, parts.len() as int)),
    {
        reveal(Prefetch::is_plan);
        assert forall|k: int| 0 <= k < parts.len() implies self.leads_down(
            i as int,
            #[trigger] order[k],
        ) && self.is_plan(
            self.child_behind(i as int, order[k]),
            shares[k],
            !odd,
            path.push(self.move_of(i as int, order[k])),
            parts[k],
        ) by {
            assert(self.is_part(i as int, odd, path, order, shares, k, parts[k]));
            reveal(Prefetch::is_part);
        }
    }
}

/// What the choice reads of a tree.
pub open spec fn prefetch_of<S: Scalar>(
    tree: NodeTree<S>,
    params: SearchParams<S>,
    root_is_black: bool,
    stop: bool,
) -> Prefetch<S> {
    Prefetch { nodes: tree.nodes(), head: tree.current_head, params, root_is_black, stop }
}

/// The edges of a node whose prior is not zero, by descending score.
fn scored_edges<S: Scalar>(
    tree: &NodeTree<S>,
    node_idx: usize,
    factor: S,
    fpu: S,
    draws: S,
    Ghost(prefetch): Ghost<Prefetch<S>>,
    Ghost(odd): Ghost<bool>,
) -> (r: Vec<Scored<S>>)
    requires
        tree.wf(),
        counters_open(tree.nodes()),
        node_idx < tree.nodes().len(),
        prefetch.nodes == tree.nodes(),
        factor == prefetch.factor(node_idx as int),
        fpu == prefetch.fpu(node_idx as int, odd),
        draws == prefetch.draws(odd),
    ensures
        prefetch.is_order(node_idx as int, odd, r@),
{
    let count: usize = tree.node(node_idx).num_edges();
    let mut scores: Vec<Scored<S>> = Vec::new();
    let mut e: usize = 0;
    while e < count
        invariant
            tree.wf(),
            counters_open(tree.nodes()),
            node_idx < tree.nodes().len(),
            count == tree.nodes()[node_idx as int].edges@.len(),
            e <= count,
            prefetch.nodes == tree.nodes(),
            factor == prefetch.factor(node_idx as int),
            fpu == prefetch.fpu(node_idx as int, odd),
            draws == prefetch.draws(odd),
            scores@ == prefetch.candidates(node_idx as int, odd, e as int),
            forall|k: int| 0 <= k < scores@.len() ==> (#[trigger] scores@[k]).edge_idx < count,
        decreases count - e,
    {
        proof {
            assert(node_linked(tree.nodes(), node_idx as int));
        }
        let edge: EdgeAndNode<S> = tree.edge_and_node(node_idx, e);
        proof {
            match tree.nodes()[node_idx as int].children@[e as int] {
                Some(c) => {
                    assert(tree.nodes()[c as int].spec_n_started() < u32::MAX);
                },
                None => {},
            }
        }
        if !edge.p().same(S::zero()) {
            let score: S = edge.u(factor).negated().minus(edge.q(fpu, draws));
            assert(score == prefetch.score(node_idx as int, e as int, odd));
            scores.push(Scored { score, edge_idx: e });
        }
        e += 1;
    }
    let sorted: Vec<Scored<S>> = sort_by(&scores, &ByScore);
    proof {
        assert forall|k: int| 0 <= k < sorted@.len() implies (#[trigger] sorted@[k]).edge_idx < count by {
            assert(sorted@.contains(sorted@[k]));
            assert(scores@.contains(sorted@[k]));
            let j = choose|j: int| 0 <= j < scores@.len() && scores@[j] == sorted@[k];
            assert(scores@[j].edge_idx < count);
        }
        reveal(Prefetch::is_order);
        assert((|a: Scored<S>, b: Scored<S>| ByScore.spec_is_better(a, b)) =~= (|
            a: Scored<S>,
            b: Scored<S>,
        | a.score.spec_total_key() < b.score.spec_total_key()));
    }
    sorted
}

/// What the edge in place `index` may spend of what is left.
fn share_of<S: Scalar>(
    tree: &NodeTree<S>,
    i: usize,
    scores: &Vec<Scored<S>>,
    index: usize,
    left: usize,
    last_share: usize,
    factor: S,
    fpu: S,
    draws: S,
    Ghost(prefetch): Ghost<Prefetch<S>>,
    Ghost(odd): Ghost<bool>,
) -> (r: usize)
    requires
        tree.wf(),
        i < tree.nodes().len(),
        index < scores@.len(),
        prefetch.nodes == tree.nodes(),
        prefetch.is_order(i as int, odd, scores@),
        factor == prefetch.factor(i as int),
        fpu == prefetch.fpu(i as int, odd),
        draws == prefetch.draws(odd),
    ensures
        r == prefetch.share(i as int, odd, scores@, index as int, left as int, last_share as int),
{
    if index >= scores.len() - 1 {
        return last_share;
    }
    let edge_idx: usize = scores[index].edge_idx;
    proof {
        prefetch.lemma_order_in_range(i as int, odd, scores@, index as int);
        assert(node_linked(tree.nodes(), i as int));
    }
    let edge: EdgeAndNode<S> = tree.edge_and_node(i, edge_idx);
    let next_score: S = scores[index + 1].score.negated();
    let q: S = edge.q(fpu.negated(), draws);
    if !next_score.above(q) {
        return left;
    }
    let estimated: u32 = edge.p().times(factor).over(next_score.minus(q)).minus(
        S::count(edge.n_started()),
    ).floor_count();
    if estimated as u64 + 1 < left as u64 {
        estimated as usize + 1
    } else {
        left
    }
}

/// Chooses positions below a node for which the network is likely to be asked soon
/// and adds the moves that lead there to a plan. Returns how many were chosen.
///
/// An unvisited position is chosen itself. A visited one passes its budget on to
/// its edges, best first: each gets what it could use before the next best would
/// overtake it.
pub fn prefetch_into_cache<S: Scalar>(
    tree: &NodeTree<S>,
    params: &SearchParams<S>,
    root_is_black: bool,
    node_idx: Option<usize>,
    budget: usize,
    is_odd_depth: bool,
    stop: bool,
    path: &mut Vec<Move>,
    plan: &mut Vec<Vec<Move>>,
) -> (r: usize)
    requires
        tree.wf(),
        counters_open(tree.nodes()),
        node_idx matches Some(i) ==> i < tree.nodes().len(),
    ensures
        final(path)@ == old(path)@,
        old(plan)@.len() <= final(plan)@.len(),
        r == final(plan)@.len() - old(plan)@.len(),
        final(plan)@.take(old(plan)@.len() as int) == old(plan)@,
        prefetch_of(*tree, *params, root_is_black, stop).is_plan(
            node_idx,
            budget as int,
            is_odd_depth,
            old(path)@,
            lines_from(final(plan)@, old(plan)@.len() as int),
        ),
    decreases
            (match node_idx {
                Some(i) => tree.nodes().len() - i,
                None => 0,
            }),
{
    let ghost first_plan = plan@;
    let ghost here = path@;
    let ghost prefetch = prefetch_of(*tree, *params, root_is_black, stop);
    let ghost odd = is_odd_depth;
    proof {
        assert(first_plan.take(first_plan.len() as int) =~= first_plan);
        assert(lines_from(first_plan, first_plan.len() as int) =~= Seq::empty());
        prefetch.lemma_plan_without_edges(node_idx, budget as int, odd, here);
    }
    if budget == 0 {
        return 0;
    }
    let visited: Option<usize> = match node_idx {
        Some(i) => if tree.node(i).n_started() == 0 {
            None
        } else {
            Some(i)
        },
        None => None,
    };
    let i: usize = match visited {
        Some(i) => i,
        None => {
            let copy: Vec<Move> = copy_moves(path);
            plan.push(copy);
            proof {
                assert(plan@.take(first_plan.len() as int) =~= first_plan);
                assert(lines_from(plan@, first_plan.len() as int) =~= seq![here]);
            }
            return 1;
        },
    };
    if tree.node(i).n() == 0 || tree.node(i).is_terminal() {
        return 0;
    }
    let draws: S = draw_score(params, root_is_black, is_odd_depth);
    let is_root: bool = match tree.current_head {
        Some(head) => head == i,
        None => false,
    };
    let factor: S = compute_puct_factor(params, tree.node(i), is_root);
    let fpu: S = get_fpu(params, tree.arena(), i, is_root, draws);
    let scores: Vec<Scored<S>> = scored_edges(
        tree,
        i,
        factor,
        fpu,
        draws,
        Ghost(prefetch),
        Ghost(odd),
    );
    let plan_before: usize = plan.len();
    let mut share: usize = budget;
    let mut index: usize = 0;
    let ghost mut parts: Seq<Seq<Seq<Move>>> = Seq::empty();
    let ghost mut shares: Seq<int> = Seq::empty();
    proof {
        assert(lines_from(plan@, first_plan.len() as int) =~= joined(parts, 0));
        assert(prefetch.is_shared_out(i as int, odd, budget as int, scores@, parts, shares)) by {
            reveal(Prefetch::is_shared_out);
        }
    }
    while index < scores.len() && !stop && plan.len() - plan_before < budget
        invariant
            tree.wf(),
            counters_open(tree.nodes()),
            i < tree.nodes().len(),
            node_idx == Some(i),
            prefetch == prefetch_of(*tree, *params, root_is_black, stop),
            odd == is_odd_depth,
            factor == prefetch.factor(i as int),
            fpu == prefetch.fpu(i as int, odd),
            draws == prefetch.draws(odd),
            prefetch.is_order(i as int, odd, scores@),
            here == old(path)@,
            path@ == here,
            first_plan == old(plan)@,
            plan_before == first_plan.len(),
            plan_before <= plan@.len(),
            plan@.take(first_plan.len() as int) == first_plan,
            index <= scores@.len(),
            parts.len() == index,
            prefetch.is_shared_out(i as int, odd, budget as int, scores@, parts, shares),
            share == (if index == 0 {
                budget as int
            } else {
                shares[index - 1]
            }),
            lines_from(plan@, first_plan.len() as int) == joined(parts, index as int),
            forall|k: int|
                0 <= k < index ==> prefetch.is_part(
                    i as int,
                    odd,
                    here,
                    scores@,
                    shares,
                    k,
                    #[trigger] parts[k],
                ),
        decreases scores@.len() - index,
    {
        let ghost before = plan@;
        let ghost earlier = shares;
        let edge_idx: usize = scores[index].edge_idx;
        proof {
            prefetch.lemma_order_in_range(i as int, odd, scores@, index as int);
            assert(node_linked(tree.nodes(), i as int));
        }
        let left: usize = budget - (plan.len() - plan_before);
        assert(left == budget - joined(parts, index as int).len());
        share = share_of(
            tree,
            i,
            &scores,
            index,
            left,
            share,
            factor,
            fpu,
            draws,
            Ghost(prefetch),
            Ghost(odd),
        );
        let child: Option<usize> = tree.node(i).child(edge_idx);
        proof {
            assert(child == tree.nodes()[i as int].children@[edge_idx as int]);
        }
        path.push(tree.node(i).edge(edge_idx).mv);
        let _ = prefetch_into_cache(
            tree,
            params,
            root_is_black,
            child,
            share,
            !is_odd_depth,
            stop,
            path,
            plan,
        );
        path.pop();
        proof {
            assert(path@ =~= here);
            let part = lines_from(plan@, before.len() as int);
            assert forall|k: int| 0 <= k < before.len() implies plan@[k] == before[k] by {
                assert(plan@.take(before.len() as int)[k] == before[k]);
            }
            assert(plan@.take(first_plan.len() as int) =~= before.take(first_plan.len() as int));
            assert(lines_from(plan@, first_plan.len() as int) =~= lines_from(
                before,
                first_plan.len() as int,
            ) + part);
            let longer = parts.push(part);
            prefetch.lemma_shared_further(
                i as int,
                odd,
                budget as int,
                scores@,
                parts,
                shares,
                part,
                share as int,
            );
            shares = earlier.push(share as int);
            assert forall|k: int| 0 <= k < index + 1 implies prefetch.is_part(
                i as int,
                odd,
                here,
                scores@,
                shares,
                k,
                #[trigger] longer[k],
            ) by {
                reveal(Prefetch::is_part);
                if k < index {
                    assert(prefetch.is_part(
                        i as int,
                        odd,
                        here,
                        scores@,
                        earlier,
                        k,
                        parts[k],
                    ));
                    assert(shares[k] == earlier[k]);
                }
            }
            parts = longer;
        }
        index += 1;
    }
    proof {
        prefetch.lemma_plan_of_edges(i, budget as int, odd, here, scores@, parts, shares);
    }
    plan.len() - plan_before
}

} // verus!
