//! Picking the leaves that a batch visits.
use vstd::prelude::*;

use crate::classic::node::{Node, Terminal};
use crate::classic::params::SearchParams;
use crate::classic::tasks::Evaluation;
use crate::classic::tree::{
    all_child_stats, is_ancestor, lemma_update_keeps_links, node_linked, well_linked, NodeTree,
};
use crate::exact::{
    is_count_below, is_even_rounding, is_unrounded, lemma_quotient, rounds_by,
};
use crate::scalar::Scalar;

verus! {

/// A node and those above it, `depth` of them at most, without `visits` visits
/// of the given value. The length grows by one with each step up.
pub open spec fn reverted_chain<S: Scalar>(
    nodes: Seq<Node<S>>,
    at: int,
    k: int,
    depth: int,
    eval: Evaluation<S>,
    visits: u32,
) -> Seq<Node<S>>
    decreases at,
{
    let next = nodes.update(
        at,
        nodes[at].reverted(
            eval.wl,
            eval.d,
            eval.m.spec_plus(S::spec_count(k as u32)),
            visits,
        ),
    );
    if k + 1 > depth {
        next
    } else {
        match nodes[at].parent {
            Some(p) => if p < at {
                reverted_chain(next, p as int, k + 1, depth, eval, visits)
            } else {
                next
            },
            None => next,
        }
    }
}

/// Whether a node is a two-fold repetition whose cycle began before the root.
pub open spec fn is_stale_twofold<S: Scalar>(node: Node<S>, depth: u16) -> bool {
    node.terminal == Terminal::TwoFold && node.m.spec_above(S::spec_count(depth as u32))
}

/// The nodes after a stale two-fold repetition at node `c` has been revoked.
pub open spec fn twofold_corrected<S: Scalar>(
    nodes: Seq<Node<S>>,
    c: int,
    depth: u16,
) -> Seq<Node<S>> {
    if is_stale_twofold(nodes[c], depth) {
        let eval = Evaluation { wl: nodes[c].wl, d: nodes[c].d, m: nodes[c].m };
        let chain = reverted_chain(nodes, c, 0, depth as int, eval, nodes[c].n);
        chain.update(c, chain[c].made_not_terminal(all_child_stats(chain, c)))
    } else {
        nodes
    }
}

/// `b` differs from `a` in its averages, and may have fewer visits.
pub open spec fn fewer_visits<S: Scalar>(a: Node<S>, b: Node<S>) -> bool {
    &&& b == (Node { wl: b.wl, d: b.d, m: b.m, n: b.n, ..a })
    &&& b.n <= a.n
}

/// Reverting visits changes the statistics of the nodes on the way up, and
/// nothing else.
pub proof fn lemma_reverted_chain<S: Scalar>(
    nodes: Seq<Node<S>>,
    at: int,
    k: int,
    depth: int,
    eval: Evaluation<S>,
    visits: u32,
)
    requires
        0 <= at < nodes.len(),
    ensures
        reverted_chain(nodes, at, k, depth, eval, visits).len() == nodes.len(),
        forall|j: int|
            0 <= j < nodes.len() ==> fewer_visits(
                nodes[j],
                #[trigger] reverted_chain(nodes, at, k, depth, eval, visits)[j],
            ),
        forall|j: int|
            0 <= j < nodes.len() && !is_ancestor(nodes, j, at)
                ==> #[trigger] reverted_chain(nodes, at, k, depth, eval, visits)[j] == nodes[j],
    decreases at,
{
    let next = nodes.update(
        at,
        nodes[at].reverted(
            eval.wl,
            eval.d,
            eval.m.spec_plus(S::spec_count(k as u32)),
            visits,
        ),
    );
    if k + 1 <= depth {
        match nodes[at].parent {
            Some(p) => {
                if p < at {
                    lemma_reverted_chain(next, p as int, k + 1, depth, eval, visits);
                    assert forall|j: int|
                        0 <= j < nodes.len() && !is_ancestor(nodes, j, at) implies #[trigger] reverted_chain(
                        nodes,
                        at,
                        k,
                        depth,
                        eval,
                        visits,
                    )[j] == nodes[j] by {
                        crate::classic::tree::lemma_ancestor_stable(nodes, next, j, p as int);
                    }
                }
            },
            None => {},
        }
    }
}

/// Two-fold repetitions have no edges.
pub open spec fn twofolds_are_leaves<S>(nodes: Seq<Node<S>>) -> bool {
    forall|j: int|
        0 <= j < nodes.len() && (#[trigger] nodes[j]).terminal == Terminal::TwoFold
            ==> nodes[j].edges@.len() == 0
}

/// Revokes a two-fold repetition that was found before the root moved into its
/// cycle: the visits that it accounts for are taken out of the nodes above.
pub fn ensure_node_twofold_correct_for_depth<S: Scalar>(
    tree: &mut NodeTree<S>,
    child_idx: usize,
    depth: u16,
)
    requires
        old(tree).wf(),
        child_idx < old(tree).nodes().len(),
        twofolds_are_leaves(old(tree).nodes()),
    ensures
        final(tree).wf(),
        final(tree).nodes() == twofold_corrected(old(tree).nodes(), child_idx as int, depth),
        *final(tree) == (NodeTree { arena: final(tree).arena, ..*old(tree) }),
{
    let ghost before = tree.nodes();
    let ghost c = child_idx as int;
    if !tree.node(child_idx).is_twofold_terminal() || !tree.node(child_idx).m().above(
        S::count(depth as u32),
    ) {
        return;
    }
    let wl: S = tree.node(child_idx).wl();
    let d: S = tree.node(child_idx).d();
    let m: S = tree.node(child_idx).m();
    let visits: u32 = tree.node(child_idx).n();
    let ghost eval = Evaluation { wl, d, m };
    let mut at: usize = child_idx;
    let mut counter: u32 = 0;
    let mut going: bool = true;
    let ghost chain = reverted_chain(before, c, 0, depth as int, eval, visits);
    while going
        invariant
            tree.nodes().len() == before.len(),
            at < before.len(),
            well_linked(tree.nodes()),
            well_linked(before),
            counter <= depth || !going,
            eval == (Evaluation { wl, d, m }),
            going ==> reverted_chain(tree.nodes(), at as int, counter as int, depth as int, eval, visits)
                == chain,
            !going ==> tree.nodes() == chain,
            *tree == (NodeTree { arena: tree.arena, ..*old(tree) }),
        decreases at + (if going { 1int } else { 0 }),
    {
        let ghost middle = tree.nodes();
        proof {
            assert(node_linked(middle, at as int));
        }
        let parent: Option<usize> = tree.node(at).parent();
        tree.arena.nodes[at].revert_terminal_visits(
            wl,
            d,
            m.plus(S::count(counter)),
            visits,
        );
        proof {
            lemma_update_keeps_links(middle, at as int, tree.nodes()[at as int]);
        }
        counter = counter + 1;
        if counter > depth as u32 {
            going = false;
        } else {
            match parent {
                Some(p) => {
                    at = p;
                },
                None => {
                    going = false;
                },
            }
        }
    }
    proof {
        lemma_reverted_chain(before, c, 0, depth as int, eval, visits);
        assert(fewer_visits(before[c], chain[c]));
        assert(node_linked(before, c));
        assert(all_child_stats(chain, c) =~= Seq::empty());
        assert forall|g: int| 0 <= g < before.len() implies before[g].parent == (
        #[trigger] chain[g]).parent by {
            assert(fewer_visits(before[g], chain[g]));
        }
    }
    tree.make_not_terminal(child_idx);
}

/// What the two-fold correction keeps: links, bounds, visits under way, and all
/// of the nodes that do not lie above the corrected one.
pub proof fn lemma_twofold_frame<S: Scalar>(nodes: Seq<Node<S>>, c: int, depth: u16)
    requires
        well_linked(nodes),
        0 <= c < nodes.len(),
        twofolds_are_leaves(nodes),
    ensures
        twofold_corrected(nodes, c, depth).len() == nodes.len(),
        forall|j: int|
            0 <= j < nodes.len() && j != c ==> fewer_visits(
                nodes[j],
                #[trigger] twofold_corrected(nodes, c, depth)[j],
            ),
        forall|j: int|
            0 <= j < nodes.len() && !is_ancestor(nodes, j, c) ==> #[trigger] twofold_corrected(
                nodes,
                c,
                depth,
            )[j] == nodes[j],
        !is_stale_twofold(nodes[c], depth) ==> twofold_corrected(nodes, c, depth)[c] == nodes[c],
        is_stale_twofold(nodes[c], depth) ==> ({
            let node = twofold_corrected(nodes, c, depth)[c];
            &&& node == (Node {
                wl: node.wl,
                d: node.d,
                m: node.m,
                n: 0,
                terminal: Terminal::NonTerminal,
                ..nodes[c]
            })
        }),
{
    if is_stale_twofold(nodes[c], depth) {
        let eval = Evaluation { wl: nodes[c].wl, d: nodes[c].d, m: nodes[c].m };
        lemma_reverted_chain(nodes, c, 0, depth as int, eval, nodes[c].n);
        let chain = reverted_chain(nodes, c, 0, depth as int, eval, nodes[c].n);
        assert(fewer_visits(nodes[c], chain[c]));
        assert(node_linked(nodes, c));
    }
}

/// The score that draws get at a node, which depends on whose turn it is there.
pub open spec fn draw_score_at<S: Scalar>(
    params: SearchParams<S>,
    root_is_black: bool,
    is_odd_depth: bool,
) -> S {
    if is_odd_depth == root_is_black {
        params.weights.draw_score
    } else {
        params.weights.draw_score.spec_negated()
    }
}

/// The score that draws get at a node.
pub fn draw_score<S: Scalar>(
    params: &SearchParams<S>,
    root_is_black: bool,
    is_odd_depth: bool,
) -> (r: S)
    ensures
        r == draw_score_at(*params, root_is_black, is_odd_depth),
{
    if is_odd_depth == root_is_black {
        params.weights.draw_score
    } else {
        params.weights.draw_score.negated()
    }
}

/// The edges of a node that compete for visits: their priors, values, started
/// visits and scores, and whether they may be chosen.
#[derive(Debug)]
pub struct Candidates<S> {
    pub policy: Vec<S>,
    pub utility: Vec<S>,
    pub n_started: Vec<u32>,
    pub score: Vec<S>,
    pub admissible: Vec<bool>,
}

impl<S: Scalar> Candidates<S> {
    pub open spec fn wf(self, len: int) -> bool {
        &&& self.policy@.len() == len
        &&& self.utility@.len() == len
        &&& self.n_started@.len() == len
        &&& self.score@.len() == len
        &&& self.admissible@.len() == len
    }

    /// `utility + policy * factor / (1 + started visits)`.
    pub open spec fn scored(self, e: int, factor: S) -> S {
        self.utility@[e].spec_plus(
            self.policy@[e].spec_times(factor).spec_over(
                S::spec_count((1 + self.n_started@[e]) as u32),
            ),
        )
    }
}

/// The leading edges of a scan.
#[derive(Clone, Copy, Debug)]
pub struct Leaders<S> {
    /// The edge with the highest score.
    pub best: Option<usize>,
    pub best_score: S,
    /// The second highest score.
    pub second: Option<S>,
    /// Whether the scan is over: edges behind an unvisited one cannot do better.
    pub finished: bool,
}

/// The leaders among the first `k` edges.
pub open spec fn leaders_of<S: Scalar>(candidates: Candidates<S>, k: int) -> Leaders<S>
    decreases k,
{
    if k <= 0 {
        Leaders { best: None, best_score: S::spec_zero(), second: None, finished: false }
    } else {
        let before = leaders_of(candidates, k - 1);
        if before.finished || !candidates.admissible@[k - 1] {
            before
        } else {
            let score = candidates.score@[k - 1];
            let finished = candidates.n_started@[k - 1] == 0;
            if before.best is None {
                Leaders {
                    best: Some((k - 1) as usize),
                    best_score: score,
                    second: None,
                    finished,
                }
            } else if score.spec_above(before.best_score) {
                Leaders {
                    best: Some((k - 1) as usize),
                    best_score: score,
                    second: Some(before.best_score),
                    finished,
                }
            } else if before.second is None || score.spec_above(before.second->Some_0) {
                Leaders {
                    best: before.best,
                    best_score: before.best_score,
                    second: Some(score),
                    finished,
                }
            } else {
                Leaders { finished, ..before }
            }
        }
    }
}

pub proof fn lemma_leaders_finished<S: Scalar>(candidates: Candidates<S>, k: int, to: int)
    requires
        k <= to,
        leaders_of(candidates, k).finished,
    ensures
        leaders_of(candidates, to) == leaders_of(candidates, k),
    decreases to - k,
{
    if k < to {
        lemma_leaders_finished(candidates, k, to - 1);
    }
}

/// The best edge is one that may be chosen.
pub proof fn lemma_leaders_admissible<S: Scalar>(candidates: Candidates<S>, k: int)
    requires
        0 <= k <= usize::MAX,
    ensures
        leaders_of(candidates, k).best matches Some(e) ==> e < k && candidates.admissible@[e as int],
    decreases k,
{
    if k > 0 {
        lemma_leaders_admissible(candidates, k - 1);
    }
}

/// Where some edge may be chosen, one leads.
pub proof fn lemma_leaders_exist<S: Scalar>(candidates: Candidates<S>, k: int, e: int)
    requires
        0 <= e < k,
        candidates.admissible@[e],
    ensures
        leaders_of(candidates, k).best is Some,
    decreases k,
{
    if e < k - 1 {
        lemma_leaders_exist(candidates, k - 1, e);
    } else {
        lemma_leaders_finished_has_best(candidates, k - 1);
    }
}

proof fn lemma_leaders_finished_has_best<S: Scalar>(candidates: Candidates<S>, k: int)
    ensures
        leaders_of(candidates, k).finished ==> leaders_of(candidates, k).best is Some,
    decreases k,
{
    if k > 0 {
        lemma_leaders_finished_has_best(candidates, k - 1);
    }
}

/// Where scores are ordered, no edge that the scan comes to and that may be chosen has a
/// higher score than the leading one.
pub proof fn law_leader_is_best<S: Scalar>(candidates: Candidates<S>, k: int, e: int)
    requires
        0 <= e < k <= usize::MAX,
        candidates.admissible@[e],
        !leaders_of(candidates, e).finished,
        forall|a: S, b: S, c: S|
            !#[trigger] b.spec_above(a) && !#[trigger] c.spec_above(b) ==> !c.spec_above(a),
        forall|a: S, b: S| #[trigger] a.spec_above(b) ==> !b.spec_above(a),
        forall|a: S| !#[trigger] a.spec_above(a),
    ensures
        leaders_of(candidates, k).best is Some,
        leaders_of(candidates, k).best_score
            == candidates.score@[leaders_of(candidates, k).best->Some_0 as int],
        !candidates.score@[e].spec_above(leaders_of(candidates, k).best_score),
    decreases k,
{
    lemma_leader_has_its_score(candidates, k);
    if e < k - 1 {
        law_leader_is_best(candidates, k - 1, e);
        let before = leaders_of(candidates, k - 1);
        let score = candidates.score@[k - 1];
        if score.spec_above(before.best_score) {
            assert(!before.best_score.spec_above(score));
        }
    } else {
        lemma_leader_has_its_score(candidates, e);
    }
}

proof fn lemma_leader_has_its_score<S: Scalar>(candidates: Candidates<S>, k: int)
    requires
        0 <= k <= usize::MAX,
    ensures
        leaders_of(candidates, k).best matches Some(b) ==> leaders_of(candidates, k).best_score
            == candidates.score@[b as int],
    decreases k,
{
    if k > 0 {
        lemma_leader_has_its_score(candidates, k - 1);
    }
}

/// Finds the leading edges. Edges are ordered by prior, so the scan ends behind
/// the first unvisited edge that may be chosen.
pub fn scan_edges<S: Scalar>(candidates: &Candidates<S>, len: usize) -> (r: Leaders<S>)
    requires
        candidates.wf(len as int),
    ensures
        r == leaders_of(*candidates, len as int),
{
    let mut leaders: Leaders<S> = Leaders {
        best: None,
        best_score: S::zero(),
        second: None,
        finished: false,
    };
    let mut e: usize = 0;
    while e < len && !leaders.finished
        invariant
            e <= len,
            candidates.wf(len as int),
            leaders == leaders_of(*candidates, e as int),
        decreases len - e,
    {
        if candidates.admissible[e] {
            let score: S = candidates.score[e];
            let finished: bool = candidates.n_started[e] == 0;
            match leaders.best {
                None => {
                    leaders = Leaders { best: Some(e), best_score: score, second: None, finished };
                },
                Some(best) => {
                    if score.above(leaders.best_score) {
                        leaders = Leaders {
                            best: Some(e),
                            best_score: score,
                            second: Some(leaders.best_score),
                            finished,
                        };
                    } else {
                        let second: Option<S> = match leaders.second {
                            None => Some(score),
                            Some(runner_up) => if score.above(runner_up) {
                                Some(score)
                            } else {
                                leaders.second
                            },
                        };
                        leaders = Leaders {
                            best: Some(best),
                            best_score: leaders.best_score,
                            second,
                            finished,
                        };
                    }
                },
            }
        }
        e += 1;
    }
    proof {
        if leaders.finished {
            lemma_leaders_finished(*candidates, e as int, len as int);
        }
    }
    leaders
}

/// How many visits the best edge can take before the second best overtakes it,
/// where that can happen.
pub open spec fn visits_until_overtaken<S: Scalar>(
    candidates: Candidates<S>,
    best: int,
    second: S,
    factor: S,
) -> u32 {
    if second.spec_above(candidates.utility@[best]) {
        let visits = candidates.policy@[best].spec_times(factor).spec_over(
            second.spec_minus(candidates.utility@[best]),
        ).spec_minus(S::spec_count((candidates.n_started@[best] + 1) as u32)).spec_plus(
            S::spec_one(),
        ).spec_floor_count();
        if visits < 1 {
            1
        } else if visits > 1_000_000_000 {
            1_000_000_000
        } else {
            visits
        }
    } else {
        u32::MAX
    }
}

/// Computes how many visits the best edge can take before it is overtaken.
pub(crate) fn estimate_visits<S: Scalar>(
    candidates: &Candidates<S>,
    best: usize,
    second: S,
    factor: S,
    len: usize,
) -> (r: u32)
    requires
        candidates.wf(len as int),
        best < len,
        candidates.n_started@[best as int] < u32::MAX,
    ensures
        r == visits_until_overtaken(*candidates, best as int, second, factor),
        r >= 1,
{
    let utility: S = candidates.utility[best];
    if second.above(utility) {
        let visits: u32 = candidates.policy[best].times(factor).over(second.minus(utility)).minus(
            S::count(candidates.n_started[best] + 1),
        ).plus(S::one()).floor_count();
        if visits < 1 {
            1
        } else if visits > 1_000_000_000 {
            1_000_000_000
        } else {
            visits
        }
    } else {
        u32::MAX
    }
}

/// What a draw is worth changes sides from one depth to the next, and with the side that
/// the search is for, however results are rounded as long as both sides are treated alike.
pub proof fn law_draw_score_changes_sides<S: Scalar>(
    value: spec_fn(S) -> real,
    round: spec_fn(real) -> real,
    params: SearchParams<S>,
    root_is_black: bool,
    is_odd_depth: bool,
    r: S,
    next: S,
    other: S,
)
    requires
        rounds_by(value, round),
        is_even_rounding(round),
        call_ensures(draw_score::<S>, (&params, root_is_black, is_odd_depth), r),
        call_ensures(draw_score::<S>, (&params, root_is_black, !is_odd_depth), next),
        call_ensures(draw_score::<S>, (&params, !root_is_black, is_odd_depth), other),
    ensures
        value(next) == -value(r),
        value(other) == -value(r),
        !root_is_black && !is_odd_depth ==> r == params.weights.draw_score,
        root_is_black && is_odd_depth ==> r == params.weights.draw_score,
{
    let v = value(params.weights.draw_score);
    assert(round(-v) == -round(v));
}

/// Where nothing is rounded, the visits that the best edge is estimated to take are those
/// up to which it keeps its lead: after one fewer its score is still no lower than the
/// second best, and after all of them it is. Where the second best never comes near, there
/// is no end to them.
pub proof fn law_estimated_visits_keep_the_lead<S: Scalar>(
    value: spec_fn(S) -> real,
    candidates: Candidates<S>,
    best: int,
    second: S,
    factor: S,
)
    requires
        is_unrounded(value),
        candidates.n_started@[best] < u32::MAX,
    ensures
        ({
            let r = visits_until_overtaken(candidates, best, second, factor);
            let started = candidates.n_started@[best] as real;
            let gap = value(second) - value(candidates.utility@[best]);
            let bonus = value(candidates.policy@[best]) * value(factor);
            &&& gap <= 0real ==> r == u32::MAX
            &&& gap > 0real ==> 1 <= r <= 1_000_000_000
            &&& gap > 0real && r > 1 ==> gap * (started + (r as real)) <= bonus
            &&& gap > 0real && r < 1_000_000_000 ==> bonus < gap * (started + 1real + (r as real))
        }),
{
    let r = visits_until_overtaken(candidates, best, second, factor);
    let gap = second.spec_minus(candidates.utility@[best]);
    let bonus = candidates.policy@[best].spec_times(factor);
    if value(gap) > 0real {
        lemma_quotient(value, bonus, gap);
        let begun = S::spec_count((candidates.n_started@[best] + 1) as u32);
        let visits = bonus.spec_over(gap).spec_minus(begun).spec_plus(S::spec_one());
        assert(is_count_below(value(visits), visits.spec_floor_count()));
        let (x, g, b, s) = (
            value(bonus.spec_over(gap)),
            value(gap),
            value(bonus),
            candidates.n_started@[best] as real,
        );
        assert(value(begun) == s + 1real);
        assert(value(visits) == x - s);
        let n = r as real;
        if r > 1 {
            assert(g * (s + n) <= b) by (nonlinear_arith)
                requires
                    x * g == b,
                    s + n <= x,
                    g > 0real,
            ;
        }
        if r < 1_000_000_000 {
            assert(b < g * (s + 1real + n)) by (nonlinear_arith)
                requires
                    x * g == b,
                    x < s + 1real + n,
                    g > 0real,
            ;
        }
    }
}

} // verus!
