//! How the visits for a node are placed below it: spread over its edges, handed on to tasks,
//! turned into collisions, or placed below its children in turn.
use vstd::prelude::*;

use crate::classic::descent::{deeper, spread_of, SelectionContext};
use crate::classic::loads::is_expanded;
use crate::classic::node::Node;
use crate::classic::tasks::{overlap, NodeToProcess, PickTask, PickTaskKind, PickTaskQueue};
use crate::classic::walk::{worth_a_task, Progress};
use crate::position::Move;
use crate::scalar::Scalar;

verus! {

/// Everything that a walk changes.
pub struct WalkState<S> {
    pub nodes: Seq<Node<S>>,
    pub queue: PickTaskQueue<S>,
    pub items: Seq<NodeToProcess<S>>,
    pub progress: Progress,
}

/// What handing visits on to tasks changes.
pub struct HandState<S> {
    pub queue: PickTaskQueue<S>,
    pub visits: Seq<u32>,
    pub progress: Progress,
}

/// The visits that are left for each child, once they were spread and some were handed on.
pub struct Shares<S> {
    pub visits: Seq<u32>,
    pub state: WalkState<S>,
}

/// What a walk reads.
pub struct Walking<'a, S> {
    pub context: SelectionContext<'a, S>,
    pub best_n: u32,
    pub collision_limit: u32,
    pub at_base: bool,
    /// The number of nodes when the walk began; only older nodes have anything below them.
    pub bound: int,
}

/// The node behind edge `e` of node `i`.
pub open spec fn behind<S>(nodes: Seq<Node<S>>, i: int, e: int) -> usize {
    nodes[i].children@[e]->Some_0
}

/// Whether a queue takes a task that starts at a node: the node is expanded, and its subtree
/// overlaps that of no other task.
pub open spec fn takes_task<S: Scalar>(
    queue: PickTaskQueue<S>,
    nodes: Seq<Node<S>>,
    c: int,
) -> bool {
    &&& is_expanded(nodes[c])
    &&& queue.is_open()
    &&& forall|i: int|
        0 <= i < queue.gathering_roots@.len() ==> !overlap(
            nodes,
            #[trigger] queue.gathering_roots@[i] as int,
            c,
        )
}

/// Whether a task is to gather so many visits from a node on.
pub open spec fn gathers<S: Scalar>(
    task: PickTask<S>,
    start: usize,
    depth: u16,
    visits: u32,
    moves: Seq<Move>,
) -> bool {
    &&& task.kind == PickTaskKind::Gathering
    &&& task.start == Some(start)
    &&& task.base_depth == depth
    &&& task.collision_limit == visits
    &&& task.moves_to_base@ == moves
    &&& task.results@.len() == 0
    &&& !task.complete
}

impl<'a, S: Scalar> Walking<'a, S> {
    /// Whether the visits for the child behind edge `e` were handed on, or stayed where they
    /// are not worth a task or the queue takes none.
    pub open spec fn is_handed_on(
        self,
        nodes: Seq<Node<S>>,
        i: int,
        depth: u16,
        path: Seq<Move>,
        e: int,
        s: HandState<S>,
        t: HandState<S>,
    ) -> bool {
        let share = s.visits[e];
        let c = behind(nodes, i, e);
        if share > 0 && worth_a_task(
            *self.context.params,
            share as int,
            self.collision_limit as int,
            s.progress.passed_off + s.progress.completed,
        ) && takes_task(s.queue, nodes, c as int) {
            &&& t.visits == s.visits.update(e, 0)
            &&& t.progress == (Progress {
                passed_off: (s.progress.passed_off + share) as u32,
                ..s.progress
            })
            &&& t.queue.gathering_roots@ == s.queue.gathering_roots@.push(c)
            &&& t.queue.tasks@.len() == s.queue.tasks@.len() + 1
            &&& t.queue.tasks@.drop_last() == s.queue.tasks@
            &&& t.queue.tasks@.last() matches Some(task) && gathers(
                task,
                c,
                depth,
                share,
                path.push(nodes[i].edges@[e].mv),
            )
        } else {
            t == s
        }
    }

    /// Whether this was done for all edges, one after the other.
    #[verifier::opaque]
    pub open spec fn is_handing_course(
        self,
        nodes: Seq<Node<S>>,
        i: int,
        depth: u16,
        path: Seq<Move>,
        course: Seq<HandState<S>>,
    ) -> bool {
        forall|e: int|
            0 <= e < course.len() - 1 ==> self.is_handed_on(
                nodes,
                i,
                depth,
                path,
                e,
                #[trigger] course[e],
                course[e + 1],
            )
    }

    pub open spec fn hands_on(
        self,
        nodes: Seq<Node<S>>,
        i: int,
        depth: u16,
        path: Seq<Move>,
        count: int,
        s: HandState<S>,
        t: HandState<S>,
    ) -> bool {
        exists|course: Seq<HandState<S>>|
            {
                &&& #[trigger] self.is_handing_course(nodes, i, depth, path, course)
                &&& course.len() == count + 1
                &&& course[0] == s
                &&& course.last() == t
            }
    }

    /// Whether the visits for a node were spread over its edges, and, where there are task
    /// workers, handed on to tasks.
    #[verifier::opaque]
    pub open spec fn is_shared(
        self,
        i: usize,
        limit: u32,
        is_root: bool,
        depth: u16,
        path: Seq<Move>,
        s: WalkState<S>,
        shares: Shares<S>,
    ) -> bool {
        exists|visits: Seq<u32>, max_limit: u32|
            {
                &&& #[trigger] spread_of(
                    self.context,
                    s.nodes,
                    i as int,
                    limit,
                    is_root,
                    self.best_n,
                    depth,
                    path,
                ).is_spread(
                    s.nodes,
                    s.items,
                    s.progress.max_limit,
                    shares.state.nodes,
                    visits,
                    shares.state.items,
                    max_limit,
                )
                &&& self.is_handing(
                    i,
                    depth,
                    path,
                    HandState {
                        queue: s.queue,
                        visits,
                        progress: Progress {
                            max_limit,
                            passed_off: s.progress.passed_off,
                            completed: (s.progress.completed + (shares.state.items.len()
                                - s.items.len())) as u32,
                        },
                    },
                    shares,
                )
            }
    }

    /// Whether visits that were spread were handed on where there are task workers.
    pub open spec fn is_handing(
        self,
        i: usize,
        depth: u16,
        path: Seq<Move>,
        spread: HandState<S>,
        shares: Shares<S>,
    ) -> bool {
        let handed = HandState {
            queue: shares.state.queue,
            visits: shares.visits,
            progress: shares.state.progress,
        };
        if self.context.task_workers > 0 {
            self.hands_on(
                shares.state.nodes,
                i as int,
                depth,
                path,
                spread.visits.len() as int,
                spread,
                handed,
            )
        } else {
            handed == spread
        }
    }

    /// Whether the visits for a leaf became a collision there. One that takes all visits of the
    /// walk may grow, as far as no choice would have changed.
    pub open spec fn is_collided(
        self,
        i: int,
        e: int,
        share: u32,
        depth: u16,
        s: WalkState<S>,
        t: WalkState<S>,
    ) -> bool {
        let maxvisit = if share == self.collision_limit && self.at_base && s.progress.max_limit
            > share {
            s.progress.max_limit
        } else {
            0
        };
        &&& t.nodes == s.nodes
        &&& t.queue == s.queue
        &&& t.items.len() == s.items.len() + 1
        &&& t.items.drop_last() == s.items
        &&& t.items.last().is_pending(behind(s.nodes, i, e), deeper(depth), share, maxvisit, true)
        &&& t.items.last().moves_to_visit@.len() == 0
        &&& t.progress == (Progress {
            completed: (s.progress.completed + share) as u32,
            ..s.progress
        })
    }

    /// Whether this is a course over the edges of a node.
    pub open spec fn is_course(
        self,
        shares: Shares<S>,
        course: Seq<WalkState<S>>,
        t: WalkState<S>,
    ) -> bool {
        &&& course.len() == shares.visits.len() + 1
        &&& course[0] == shares.state
        &&& course.last() == t
    }

    /// Whether the visits for a node were placed below it. They are shared out among the
    /// children; then, edge by edge, a leaf turns its share into a collision, and an expanded
    /// child places its share in the same way.
    #[verifier::opaque]
    pub open spec fn is_placed(
        self,
        i: usize,
        limit: u32,
        is_root: bool,
        depth: u16,
        path: Seq<Move>,
        s: WalkState<S>,
        t: WalkState<S>,
    ) -> bool
        decreases self.bound - i,
    {
        i < self.bound && exists|shares: Shares<S>, course: Seq<WalkState<S>>|
            {
                &&& #[trigger] self.is_shared(i, limit, is_root, depth, path, s, shares)
                &&& #[trigger] self.is_course(shares, course, t)
                &&& forall|e: int|
                    0 <= e < shares.visits.len() ==> if #[trigger] shares.visits[e] == 0 {
                        course[e + 1] == course[e]
                    } else if !is_expanded(
                        course[e].nodes[behind(course[e].nodes, i as int, e) as int],
                    ) {
                        self.is_collided(
                            i as int,
                            e,
                            shares.visits[e],
                            depth,
                            course[e],
                            course[e + 1],
                        )
                    } else {
                        i < behind(course[e].nodes, i as int, e) < self.bound && self.is_placed(
                            behind(course[e].nodes, i as int, e),
                            shares.visits[e],
                            false,
                            deeper(depth),
                            path.push(course[e].nodes[i as int].edges@[e].mv),
                            course[e],
                            course[e + 1],
                        )
                    }
            }
    }

    /// Whether the share of the child behind one edge was placed.
    #[verifier::opaque]
    pub open spec fn is_share_placed(
        self,
        i: usize,
        e: int,
        share: u32,
        depth: u16,
        path: Seq<Move>,
        s: WalkState<S>,
        t: WalkState<S>,
    ) -> bool {
        if share == 0 {
            t == s
        } else if !is_expanded(s.nodes[behind(s.nodes, i as int, e) as int]) {
            self.is_collided(i as int, e, share, depth, s, t)
        } else {
            i < behind(s.nodes, i as int, e) < self.bound && self.is_placed(
                behind(s.nodes, i as int, e),
                share,
                false,
                deeper(depth),
                path.push(s.nodes[i as int].edges@[e].mv),
                s,
                t,
            )
        }
    }

    /// Whether the shares of the first children were placed.
    #[verifier::opaque]
    pub open spec fn has_come(
        self,
        i: usize,
        depth: u16,
        path: Seq<Move>,
        shares: Shares<S>,
        course: Seq<WalkState<S>>,
        t: WalkState<S>,
    ) -> bool {
        &&& 0 < course.len() <= shares.visits.len() + 1
        &&& course[0] == shares.state
        &&& course.last() == t
        &&& forall|e: int|
            0 <= e < course.len() - 1 ==> self.is_share_placed(
                i,
                e,
                shares.visits[e],
                depth,
                path,
                #[trigger] course[e],
                course[e + 1],
            )
    }

    pub proof fn lemma_placing_begins(
        self,
        i: usize,
        depth: u16,
        path: Seq<Move>,
        shares: Shares<S>,
    )
        ensures
            self.has_come(i, depth, path, shares, seq![shares.state], shares.state),
    {
        reveal(Walking::has_come);
    }

    pub proof fn lemma_placing_goes_on(
        self,
        i: usize,
        depth: u16,
        path: Seq<Move>,
        shares: Shares<S>,
        course: Seq<WalkState<S>>,
        s: WalkState<S>,
        t: WalkState<S>,
    )
        requires
            self.has_come(i, depth, path, shares, course, s),
            0 < course.len() <= shares.visits.len(),
            self.is_share_placed(
                i,
                course.len() - 1,
                shares.visits[course.len() - 1],
                depth,
                path,
                s,
                t,
            ),
        ensures
            self.has_come(i, depth, path, shares, course.push(t), t),
    {
        reveal(Walking::has_come);
        let longer = course.push(t);
        assert forall|e: int| 0 <= e < longer.len() - 1 implies self.is_share_placed(
            i,
            e,
            shares.visits[e],
            depth,
            path,
            #[trigger] longer[e],
            longer[e + 1],
        ) by {
            if e < course.len() - 1 {
                assert(longer[e] == course[e] && longer[e + 1] == course[e + 1]);
            } else {
                assert(longer[e] == course.last());
            }
        }
    }

    pub proof fn lemma_placing_ends(
        self,
        i: usize,
        limit: u32,
        is_root: bool,
        depth: u16,
        path: Seq<Move>,
        s: WalkState<S>,
        shares: Shares<S>,
        course: Seq<WalkState<S>>,
        t: WalkState<S>,
    )
        requires
            i < self.bound,
            self.is_shared(i, limit, is_root, depth, path, s, shares),
            self.has_come(i, depth, path, shares, course, t),
            course.len() == shares.visits.len() + 1,
        ensures
            self.is_placed(i, limit, is_root, depth, path, s, t),
    {
        reveal(Walking::has_come);
        reveal(Walking::is_placed);
        assert(self.is_course(shares, course, t));
        assert forall|e: int| 0 <= e < shares.visits.len() implies if #[trigger] shares.visits[e] == 0 {
            course[e + 1] == course[e]
        } else if !is_expanded(course[e].nodes[behind(course[e].nodes, i as int, e) as int]) {
            self.is_collided(i as int, e, shares.visits[e], depth, course[e], course[e + 1])
        } else {
            i < behind(course[e].nodes, i as int, e) < self.bound && self.is_placed(
                behind(course[e].nodes, i as int, e),
                shares.visits[e],
                false,
                deeper(depth),
                path.push(course[e].nodes[i as int].edges@[e].mv),
                course[e],
                course[e + 1],
            )
        } by {
            assert(self.is_share_placed(
                i,
                e,
                shares.visits[e],
                depth,
                path,
                course[e],
                course[e + 1],
            ));
            reveal(Walking::is_share_placed);
        }
    }

    pub proof fn lemma_handing_begins(
        self,
        nodes: Seq<Node<S>>,
        i: int,
        depth: u16,
        path: Seq<Move>,
        s: HandState<S>,
    )
        ensures
            self.hands_on(nodes, i, depth, path, 0, s, s),
    {
        reveal(Walking::is_handing_course);
        let course = seq![s];
        assert(self.is_handing_course(nodes, i, depth, path, course));
        assert(course.last() == s);
    }

    pub proof fn lemma_handing_goes_on(
        self,
        nodes: Seq<Node<S>>,
        i: int,
        depth: u16,
        path: Seq<Move>,
        e: int,
        s: HandState<S>,
        m: HandState<S>,
        t: HandState<S>,
    )
        requires
            0 <= e,
            self.hands_on(nodes, i, depth, path, e, s, m),
            self.is_handed_on(nodes, i, depth, path, e, m, t),
        ensures
            self.hands_on(nodes, i, depth, path, e + 1, s, t),
    {
        reveal(Walking::is_handing_course);
        let course = choose|course: Seq<HandState<S>>|
            {
                &&& #[trigger] self.is_handing_course(nodes, i, depth, path, course)
                &&& course.len() == e + 1
                &&& course[0] == s
                &&& course.last() == m
            };
        let longer = course.push(t);
        assert forall|k: int| 0 <= k < longer.len() - 1 implies self.is_handed_on(
            nodes,
            i,
            depth,
            path,
            k,
            #[trigger] longer[k],
            longer[k + 1],
        ) by {
            if k < e {
                assert(longer[k] == course[k] && longer[k + 1] == course[k + 1]);
            } else {
                assert(longer[k] == course.last());
            }
        }
        assert(self.is_handing_course(nodes, i, depth, path, longer));
        assert(longer[0] == s);
        assert(longer.last() == t);
    }
}

} // verus!
