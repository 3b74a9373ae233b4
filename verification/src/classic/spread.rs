//! How visits are spread over the edges of a node, step by step.
use vstd::prelude::*;

use crate::classic::descent::{is_entered, may_choose, needed_edges, SelectionContext};
use crate::classic::loads::is_expanded;
use crate::classic::node::Node;
use crate::classic::picking::{
    draw_score_at, leaders_of, twofold_corrected, visits_until_overtaken, Candidates,
};
use crate::classic::tasks::NodeToProcess;
use crate::classic::tree::spawned;
use crate::classic::uct::puct_factor;
use crate::position::Move;
use crate::scalar::Scalar;

verus! {

/// `after` is `before` with a node `c` behind edge `e` of node `i`, which is made where there
/// was none.
pub open spec fn has_child_made<S: Scalar>(
    before: Seq<Node<S>>,
    after: Seq<Node<S>>,
    i: int,
    e: int,
    c: int,
) -> bool {
    match before[i].children@[e] {
        Some(child) => c == child && after == before,
        None => c == before.len() && spawned(before, after, i, e),
    }
}

/// How many of the visits for a node start there: all of them at an expanded node, otherwise
/// one at most.
pub open spec fn starting<S: Scalar>(node: Node<S>, visits: u32) -> u32 {
    if is_expanded(node) {
        visits
    } else if node.accepts_visit() {
        1
    } else {
        0
    }
}

/// The nodes with the visits for node `c` started.
pub open spec fn started_at<S: Scalar>(nodes: Seq<Node<S>>, c: int, visits: u32) -> Seq<Node<S>> {
    nodes.update(
        c,
        Node {
            n_in_flight: (nodes[c].n_in_flight + starting(nodes[c], visits)) as u32,
            ..nodes[c]
        },
    )
}

/// `after` is `before` after visits were given to the child `c` behind edge `e` of node `i`:
/// the child is made where it does not exist, a repetition that has become stale is revoked,
/// and as many visits as can do start.
pub open spec fn gave_exactly<S: Scalar>(
    before: Seq<Node<S>>,
    after: Seq<Node<S>>,
    i: int,
    e: int,
    c: int,
    visits: u32,
    depth: u16,
) -> bool {
    exists|made: Seq<Node<S>>| #[trigger]
        has_child_made(before, made, i, e, c) && after == started_at(
            twofold_corrected(made, c, depth),
            c,
            visits,
        )
}

/// What spreading visits over the edges of a node reads.
pub struct Spread<'a, S> {
    pub context: SelectionContext<'a, S>,
    pub i: int,
    pub is_root: bool,
    pub best_n: u32,
    pub depth: u16,
    pub path: Seq<Move>,
    pub limit: u32,
    /// The exploration factor of the node.
    pub factor: S,
    /// How many edges compete.
    pub len: int,
}

/// How far spreading has come.
pub struct SpreadState<S> {
    pub nodes: Seq<Node<S>>,
    pub candidates: Candidates<S>,
    /// The visits that are to go on below each child.
    pub visits: Seq<u32>,
    pub items: Seq<NodeToProcess<S>>,
    /// The visits that are not given away yet.
    pub left: u32,
    /// The smallest number of visits after which some choice would have changed.
    pub max_limit: u32,
}

impl<'a, S: Scalar> Spread<'a, S> {
    pub open spec fn draws(self) -> S {
        draw_score_at(*self.context.params, self.context.root_is_black, self.depth % 2 == 0)
    }

    /// Whether this is the beginning: the edges that compete are entered, and nothing has been
    /// given away.
    pub open spec fn begins(self, s: SpreadState<S>) -> bool {
        &&& self.len == needed_edges(self.context, s.nodes[self.i], self.limit as int, self.is_root)
        &&& self.factor == puct_factor(*self.context.params, s.nodes[self.i], self.is_root)
        &&& s.candidates.wf(self.len)
        &&& forall|e: int|
            0 <= e < self.len ==> #[trigger] is_entered(
                s.candidates,
                self.context,
                s.nodes,
                self.i,
                e,
                self.is_root,
                self.best_n,
                self.draws(),
            )
        &&& s.visits == Seq::new(self.len as nat, |e: int| 0u32)
        &&& s.left == self.limit
    }

    /// How many visits the best edge gets: as many as it can take before the second best
    /// overtakes it.
    pub open spec fn portion(self, s: SpreadState<S>) -> u32 {
        let leaders = leaders_of(s.candidates, self.len);
        match leaders.second {
            Some(second) => {
                let estimate = visits_until_overtaken(
                    s.candidates,
                    leaders.best->Some_0 as int,
                    second,
                    self.factor,
                );
                if estimate < s.left {
                    estimate
                } else {
                    s.left
                }
            },
            None => s.left,
        }
    }

    pub open spec fn lowered_limit(self, s: SpreadState<S>) -> u32 {
        let leaders = leaders_of(s.candidates, self.len);
        match leaders.second {
            Some(second) => {
                let estimate = visits_until_overtaken(
                    s.candidates,
                    leaders.best->Some_0 as int,
                    second,
                    self.factor,
                );
                if estimate < s.max_limit {
                    estimate
                } else {
                    s.max_limit
                }
            },
            None => s.max_limit,
        }
    }

    /// Whether an entry is a visit to a node behind edge `e`.
    pub open spec fn is_visit_to(
        self,
        item: NodeToProcess<S>,
        nodes: Seq<Node<S>>,
        e: int,
        c: int,
    ) -> bool {
        &&& item.is_pending(
            c as usize,
            crate::classic::descent::deeper(self.depth),
            1,
            0,
            false,
        )
        &&& item.moves_to_visit@ == self.path.push(nodes[self.i].edges@[e].mv)
    }

    /// Whether the candidates were brought up to date after visits started behind edge `e`.
    pub open spec fn is_noted(
        self,
        before: Candidates<S>,
        after: Candidates<S>,
        nodes: Seq<Node<S>>,
        e: int,
        started: u32,
    ) -> bool {
        let count = (before.n_started@[e] + started) as u32;
        &&& after.policy@ == before.policy@
        &&& after.utility@ == before.utility@
        &&& after.n_started@ == before.n_started@.update(e, count)
        &&& after.score@ == (if started > 0 {
            before.score@.update(
                e,
                before.utility@[e].spec_plus(
                    before.policy@[e].spec_times(self.factor).spec_over(
                        S::spec_count((1 + count) as u32),
                    ),
                ),
            )
        } else {
            before.score@
        })
        &&& after.admissible@ == before.admissible@.update(
            e,
            may_choose(self.context, nodes, self.i, e, self.is_root, self.best_n),
        )
    }

    /// Whether the best edge was given its portion, with child `c` behind it.
    #[verifier::opaque]
    pub open spec fn is_step(self, s: SpreadState<S>, t: SpreadState<S>, c: int) -> bool {
        let leaders = leaders_of(s.candidates, self.len);
        let e = leaders.best->Some_0 as int;
        let portion = self.portion(s);
        let started = (t.nodes[c].n_in_flight - crate::classic::descent::flight_of(s.nodes, c)) as u32;
        let is_entry = !is_expanded(t.nodes[c]) && started > 0;
        &&& s.left > 0
        &&& leaders.best is Some
        &&& gave_exactly(s.nodes, t.nodes, self.i, e, c, portion, self.depth)
        &&& self.is_noted(s.candidates, t.candidates, t.nodes, e, started)
        &&& if is_entry {
            &&& t.items.len() == s.items.len() + 1
            &&& t.items.drop_last() == s.items
            &&& self.is_visit_to(t.items.last(), t.nodes, e, c)
            &&& t.visits == s.visits.update(e, (s.visits[e] + portion - 1) as u32)
        } else {
            t.items == s.items && t.visits == s.visits.update(e, (s.visits[e] + portion) as u32)
        }
        &&& t.left == s.left - portion
        &&& t.max_limit == self.lowered_limit(s)
    }

    /// Whether one step follows the other.
    #[verifier::opaque]
    pub open spec fn is_course(self, course: Seq<SpreadState<S>>, children: Seq<int>) -> bool {
        &&& course.len() == children.len() + 1
        &&& self.begins(course[0])
        &&& forall|k: int|
            0 <= k < children.len() ==> self.is_step(
                course[k],
                course[k + 1],
                #[trigger] children[k],
            )
    }

    /// Whether visits were spread from one state to another, always to the best edge.
    pub open spec fn leads_to(
        self,
        nodes: Seq<Node<S>>,
        items: Seq<NodeToProcess<S>>,
        max_limit: u32,
        t: SpreadState<S>,
    ) -> bool {
        exists|course: Seq<SpreadState<S>>, children: Seq<int>|
            {
                &&& #[trigger] self.is_course(course, children)
                &&& course[0].nodes == nodes
                &&& course[0].items == items
                &&& course[0].max_limit == max_limit
                &&& course.last() == t
            }
    }

    /// Whether all visits were spread.
    pub open spec fn is_spread(
        self,
        nodes: Seq<Node<S>>,
        items: Seq<NodeToProcess<S>>,
        max_limit: u32,
        nodes_after: Seq<Node<S>>,
        visits: Seq<u32>,
        items_after: Seq<NodeToProcess<S>>,
        limit_after: u32,
    ) -> bool {
        exists|t: SpreadState<S>|
            {
                &&& #[trigger] self.leads_to(nodes, items, max_limit, t)
                &&& t.left == 0
                &&& t.nodes == nodes_after
                &&& t.visits == visits
                &&& t.items == items_after
                &&& t.max_limit == limit_after
            }
    }

    pub proof fn lemma_spread_begins(self, s: SpreadState<S>)
        requires
            self.begins(s),
        ensures
            self.leads_to(s.nodes, s.items, s.max_limit, s),
    {
        reveal(Spread::is_course);
        let course = seq![s];
        assert(self.is_course(course, Seq::empty()));
        assert(course.last() == s);
    }

    pub proof fn lemma_spread_goes_on(
        self,
        nodes: Seq<Node<S>>,
        items: Seq<NodeToProcess<S>>,
        max_limit: u32,
        s: SpreadState<S>,
        t: SpreadState<S>,
        c: int,
    )
        requires
            self.leads_to(nodes, items, max_limit, s),
            self.is_step(s, t, c),
        ensures
            self.leads_to(nodes, items, max_limit, t),
    {
        reveal(Spread::is_course);
        let (course, children) = choose|course: Seq<SpreadState<S>>, children: Seq<int>|
            {
                &&& #[trigger] self.is_course(course, children)
                &&& course[0].nodes == nodes
                &&& course[0].items == items
                &&& course[0].max_limit == max_limit
                &&& course.last() == s
            };
        let longer = course.push(t);
        let more = children.push(c);
        assert forall|k: int| 0 <= k < more.len() implies self.is_step(
            longer[k],
            longer[k + 1],
            #[trigger] more[k],
        ) by {
            if k < children.len() {
                assert(more[k] == children[k]);
                assert(longer[k] == course[k] && longer[k + 1] == course[k + 1]);
            } else {
                assert(longer[k] == course.last());
            }
        }
        assert(longer[0] == course[0]);
        assert(self.is_course(longer, more));
        assert(longer.last() == t);
    }
}

} // verus!
