//! The items of a batch, and the queue of tasks that a batch is split into.
use vstd::prelude::*;

use crate::classic::node::Node;
use crate::classic::params::SearchParams;
use crate::classic::tree::{is_ancestor, lemma_ancestor_stable, node_linked, NodeTree};
use crate::position::Move;
use crate::scalar::Scalar;

verus! {

/// Value, draw and length that an evaluation gave a node.
#[derive(Clone, Copy, Debug)]
pub struct Evaluation<S> {
    pub wl: S,
    pub d: S,
    pub m: S,
}

/// One entry of a batch: a visit to a node, or visits that collided there.
#[derive(Debug)]
pub struct NodeToProcess<S> {
    pub node_idx: usize,
    pub eval: Evaluation<S>,
    pub multivisit: u32,
    pub maxvisit: u32,
    pub depth: u16,
    pub nn_queried: bool,
    pub is_cache_hit: bool,
    pub is_collision: bool,
    pub moves_to_visit: Vec<Move>,
    pub ooo_completed: bool,
    pub eval_ticket: Option<u64>,
}

impl<S: Scalar> NodeToProcess<S> {
    /// An entry that nothing has been done for yet.
    pub open spec fn is_pending(
        self,
        node_idx: usize,
        depth: u16,
        multivisit: u32,
        maxvisit: u32,
        is_collision: bool,
    ) -> bool {
        &&& self.node_idx == node_idx
        &&& self.depth == depth
        &&& self.multivisit == multivisit
        &&& self.maxvisit == maxvisit
        &&& self.is_collision == is_collision
        &&& self.eval == (Evaluation {
            wl: S::spec_zero(),
            d: S::spec_zero(),
            m: S::spec_zero(),
        })
        &&& !self.nn_queried
        &&& !self.is_cache_hit
        &&& !self.ooo_completed
        &&& self.eval_ticket is None
    }

    /// A single visit.
    pub fn visit(node_idx: usize, depth: u16) -> (r: Self)
        ensures
            r.is_pending(node_idx, depth, 1, 0, false),
            r.moves_to_visit@.len() == 0,
    {
        NodeToProcess {
            node_idx,
            eval: Evaluation { wl: S::zero(), d: S::zero(), m: S::zero() },
            multivisit: 1,
            maxvisit: 0,
            depth,
            nn_queried: false,
            is_cache_hit: false,
            is_collision: false,
            moves_to_visit: Vec::new(),
            ooo_completed: false,
            eval_ticket: None,
        }
    }

    /// Visits that could not start because the node is being visited.
    pub fn collision(node_idx: usize, depth: u16, multivisit: u32, maxvisit: u32) -> (r: Self)
        ensures
            r.is_pending(node_idx, depth, multivisit, maxvisit, true),
            r.moves_to_visit@.len() == 0,
    {
        NodeToProcess {
            node_idx,
            eval: Evaluation { wl: S::zero(), d: S::zero(), m: S::zero() },
            multivisit,
            maxvisit,
            depth,
            nn_queried: false,
            is_cache_hit: false,
            is_collision: true,
            moves_to_visit: Vec::new(),
            ooo_completed: false,
            eval_ticket: None,
        }
    }

    /// Whether the node still has to get its edges.
    pub fn is_extendable(&self, is_terminal: bool) -> (r: bool)
        ensures
            r == (!self.is_collision && !is_terminal),
    {
        !self.is_collision && !is_terminal
    }

    pub open spec fn spec_can_eval_out_of_order(self, is_terminal: bool) -> bool {
        self.is_cache_hit || is_terminal
    }

    /// Whether the result is known without the network.
    pub fn can_eval_out_of_order(&self, is_terminal: bool) -> (r: bool)
        ensures
            r == self.spec_can_eval_out_of_order(is_terminal),
    {
        self.is_cache_hit || is_terminal
    }
}

/// What a task is about.
#[derive(Clone, Copy, Debug, PartialEq, Eq, Structural)]
pub enum PickTaskKind {
    /// Pick leaves below a node.
    Gathering,
    /// Prepare a range of the batch for evaluation.
    Processing,
}

/// A task: a subtree to gather from, or a range of the batch to process.
#[derive(Debug)]
pub struct PickTask<S> {
    pub kind: PickTaskKind,
    pub start: Option<usize>,
    pub base_depth: u16,
    pub collision_limit: u32,
    pub moves_to_base: Vec<Move>,
    pub results: Vec<NodeToProcess<S>>,
    pub start_idx: usize,
    pub end_idx: usize,
    pub complete: bool,
}

impl<S: Scalar> PickTask<S> {
    /// A task that gathers below a node.
    pub fn gathering(
        start: usize,
        base_depth: u16,
        moves_to_base: Vec<Move>,
        collision_limit: u32,
    ) -> (r: Self)
        ensures
            r.kind == PickTaskKind::Gathering,
            r.start == Some(start),
            r.base_depth == base_depth,
            r.collision_limit == collision_limit,
            r.moves_to_base == moves_to_base,
            r.results@.len() == 0,
            r.start_idx == 0 && r.end_idx == 0 && !r.complete,
    {
        PickTask {
            kind: PickTaskKind::Gathering,
            start: Some(start),
            base_depth,
            collision_limit,
            moves_to_base,
            results: Vec::new(),
            start_idx: 0,
            end_idx: 0,
            complete: false,
        }
    }

    /// Whether this is a task, not carried out yet, for a range of the batch.
    pub open spec fn processes(self, start_idx: int, end_idx: int) -> bool {
        &&& self.kind == PickTaskKind::Processing
        &&& self.start is None
        &&& self.base_depth == 0
        &&& self.collision_limit == 0
        &&& self.moves_to_base@.len() == 0
        &&& self.results@.len() == 0
        &&& self.start_idx == start_idx
        &&& self.end_idx == end_idx
        &&& !self.complete
    }

    /// A task that processes the entries from `start_idx` up to `end_idx`.
    pub fn processing(start_idx: usize, end_idx: usize) -> (r: Self)
        ensures
            r.processes(start_idx as int, end_idx as int),
    {
        PickTask {
            kind: PickTaskKind::Processing,
            start: None,
            base_depth: 0,
            collision_limit: 0,
            moves_to_base: Vec::new(),
            results: Vec::new(),
            start_idx,
            end_idx,
            complete: false,
        }
    }
}

/// A task taken from the queue, with the place that it goes back to.
#[derive(Debug)]
pub struct ClaimedTask<S> {
    pub id: usize,
    pub task: PickTask<S>,
}

/// What a worker that asks for a task is to do.
#[derive(Debug)]
pub enum TaskPoll<S> {
    /// Carry the task out.
    Run(ClaimedTask<S>),
    /// Leave: no task will come any more.
    Leave,
    /// Sleep until a task is published.
    Sleep,
    /// Ask again at once.
    Spin,
}

/// The most tasks that one phase can hold.
pub const MAX_TASKS: usize = 100;

/// Two subtrees share a node exactly where the root of one lies in the other.
pub open spec fn overlap<S>(nodes: Seq<Node<S>>, left: int, right: int) -> bool {
    is_ancestor(nodes, left, right) || is_ancestor(nodes, right, left)
}

/// No two of the roots have subtrees that overlap.
pub open spec fn disjoint_roots<S>(nodes: Seq<Node<S>>, roots: Seq<usize>) -> bool {
    forall|a: int, b: int|
        0 <= a < b < roots.len() ==> !overlap(
            nodes,
            (#[trigger] roots[a]) as int,
            (#[trigger] roots[b]) as int,
        )
}

/// The results of the first `k` tasks that are not taken, in order.
pub open spec fn results_of<S>(tasks: Seq<Option<PickTask<S>>>, k: int) -> Seq<NodeToProcess<S>>
    decreases k,
{
    if k <= 0 {
        Seq::empty()
    } else {
        match tasks[k - 1] {
            Some(task) => results_of(tasks, k - 1) + task.results@,
            None => results_of(tasks, k - 1),
        }
    }
}

/// The tasks of one phase. A taken task leaves its slot empty until it is
/// complete.
#[derive(Debug)]
pub struct PickTaskQueue<S> {
    pub tasks: Vec<Option<PickTask<S>>>,
    /// The roots of all subtrees handed out in this phase.
    pub gathering_roots: Vec<usize>,
    /// The number of tasks published, or -1 between two phases.
    pub task_count: isize,
    pub tasks_taken: usize,
    pub completed_tasks: usize,
    pub phase_sealed: bool,
    pub exiting: bool,
}

impl<S: Scalar> PickTaskQueue<S> {
    /// While a phase lasts every task counts as published, and those not taken
    /// yet stand in their slots.
    pub open spec fn wf(self) -> bool {
        &&& self.tasks@.len() <= MAX_TASKS
        &&& self.task_count >= -1
        &&& self.tasks_taken <= self.tasks@.len()
        &&& self.completed_tasks <= self.tasks_taken
        &&& self.task_count >= 0 ==> self.task_count == self.tasks@.len()
        &&& forall|i: int|
            self.tasks_taken <= i < self.tasks@.len() ==> #[trigger] self.tasks@[i] is Some
    }

    /// Whether tasks can be published.
    pub open spec fn is_open(self) -> bool {
        self.task_count >= 0 && self.tasks@.len() < MAX_TASKS
    }

    /// Whether all published tasks are complete.
    pub open spec fn spec_is_done(self) -> bool {
        self.task_count <= self.completed_tasks
    }

    /// Whether a task waits to be taken.
    pub open spec fn has_task(self) -> bool {
        self.tasks_taken < self.task_count
    }

    /// A queue in a phase without tasks.
    pub open spec fn is_reset(self) -> bool {
        &&& self.tasks@.len() == 0
        &&& self.gathering_roots@.len() == 0
        &&& self.task_count == 0
        &&& self.tasks_taken == 0
        &&& self.completed_tasks == 0
        &&& !self.phase_sealed
    }

    /// A queue in a phase without tasks.
    pub fn new() -> (r: Self)
        ensures
            r.wf(),
            r.is_reset(),
            !r.exiting,
    {
        PickTaskQueue {
            tasks: Vec::new(),
            gathering_roots: Vec::new(),
            task_count: 0,
            tasks_taken: 0,
            completed_tasks: 0,
            phase_sealed: false,
            exiting: false,
        }
    }

    /// Begins a phase without tasks.
    pub fn reset(&mut self)
        ensures
            final(self).wf(),
            final(self).is_reset(),
            final(self).exiting == old(self).exiting,
    {
        self.task_count = 0;
        self.tasks_taken = 0;
        self.completed_tasks = 0;
        self.phase_sealed = false;
        self.tasks = Vec::new();
        self.gathering_roots = Vec::new();
    }

    /// Publishes a task, unless no phase lasts or the queue is full.
    pub fn push(&mut self, task: PickTask<S>) -> (r: bool)
        requires
            old(self).wf(),
        ensures
            final(self).wf(),
            r == old(self).is_open(),
            !r ==> *final(self) == *old(self),
            r ==> final(self).tasks@ == old(self).tasks@.push(Some(task)) && final(self).task_count
                == old(self).task_count + 1,
            *final(self) == (PickTaskQueue {
                tasks: final(self).tasks,
                task_count: final(self).task_count,
                ..*old(self)
            }),
    {
        if self.task_count < 0 {
            return false;
        }
        if self.tasks.len() >= MAX_TASKS {
            return false;
        }
        self.tasks.push(Some(task));
        self.task_count = self.task_count + 1;
        true
    }

    /// Whether one node is another or one of its ancestors.
    pub fn is_ancestor_of(tree: &NodeTree<S>, ancestor: usize, node: usize) -> (r: bool)
        requires
            tree.wf(),
            node < tree.nodes().len(),
        ensures
            r == is_ancestor(tree.nodes(), ancestor as int, node as int),
    {
        let mut at: usize = node;
        loop
            invariant
                tree.wf(),
                at < tree.nodes().len(),
                is_ancestor(tree.nodes(), ancestor as int, node as int) == is_ancestor(
                    tree.nodes(),
                    ancestor as int,
                    at as int,
                ),
            decreases at,
        {
            if at == ancestor {
                return true;
            }
            proof {
                assert(node_linked(tree.nodes(), at as int));
            }
            match tree.node(at).parent() {
                None => {
                    return false;
                },
                Some(parent) => {
                    at = parent;
                },
            }
        }
    }

    /// Whether two subtrees share a node.
    pub fn subtrees_overlap(tree: &NodeTree<S>, left: usize, right: usize) -> (r: bool)
        requires
            tree.wf(),
            left < tree.nodes().len(),
            right < tree.nodes().len(),
        ensures
            r == overlap(tree.nodes(), left as int, right as int),
    {
        Self::is_ancestor_of(tree, left, right) || Self::is_ancestor_of(tree, right, left)
    }

    /// Publishes a gathering task, unless its subtree overlaps one that was
    /// handed out before in this phase.
    pub fn push_gathering(&mut self, tree: &NodeTree<S>, task: PickTask<S>) -> (r: bool)
        requires
            old(self).wf(),
            tree.wf(),
            task.kind == PickTaskKind::Gathering,
            task.start matches Some(start) && start < tree.nodes().len(),
            forall|i: int|
                0 <= i < old(self).gathering_roots@.len()
                    ==> #[trigger] old(self).gathering_roots@[i] < tree.nodes().len(),
        ensures
            final(self).wf(),
            r == (old(self).is_open() && forall|i: int|
                0 <= i < old(self).gathering_roots@.len() ==> !overlap(
                    tree.nodes(),
                    #[trigger] old(self).gathering_roots@[i] as int,
                    task.start->Some_0 as int,
                )),
            !r ==> *final(self) == *old(self),
            r ==> {
                &&& final(self).tasks@ == old(self).tasks@.push(Some(task))
                &&& final(self).task_count == old(self).task_count + 1
                &&& final(self).gathering_roots@ == old(self).gathering_roots@.push(
                    task.start->Some_0,
                )
            },
            disjoint_roots(tree.nodes(), old(self).gathering_roots@) ==> disjoint_roots(
                tree.nodes(),
                final(self).gathering_roots@,
            ),
            *final(self) == (PickTaskQueue {
                tasks: final(self).tasks,
                gathering_roots: final(self).gathering_roots,
                task_count: final(self).task_count,
                ..*old(self)
            }),
    {
        let start: usize = task.start.unwrap();
        if self.task_count < 0 || self.tasks.len() >= MAX_TASKS {
            return false;
        }
        let mut i: usize = 0;
        while i < self.gathering_roots.len()
            invariant
                *self == *old(self),
                self.wf(),
                task.start == Some(start),
                tree.wf(),
                start < tree.nodes().len(),
                i <= self.gathering_roots@.len(),
                forall|k: int|
                    0 <= k < self.gathering_roots@.len() ==> #[trigger] self.gathering_roots@[k]
                        < tree.nodes().len(),
                forall|k: int|
                    0 <= k < i ==> !overlap(
                        tree.nodes(),
                        #[trigger] self.gathering_roots@[k] as int,
                        start as int,
                    ),
            decreases self.gathering_roots@.len() - i,
        {
            if Self::subtrees_overlap(tree, self.gathering_roots[i], start) {
                assert(overlap(tree.nodes(), self.gathering_roots@[i as int] as int, start as int));
                return false;
            }
            i += 1;
        }
        self.tasks.push(Some(task));
        self.gathering_roots.push(start);
        self.task_count = self.task_count + 1;
        true
    }

    /// Takes the next task that nobody has taken.
    pub fn take(&mut self) -> (r: Option<ClaimedTask<S>>)
        requires
            old(self).wf(),
        ensures
            final(self).wf(),
            r is Some == old(self).has_task(),
            r is None ==> *final(self) == *old(self),
            r matches Some(claimed) ==> {
                &&& claimed.id == old(self).tasks_taken
                &&& old(self).tasks@[claimed.id as int] == Some(claimed.task)
                &&& final(self).tasks_taken == old(self).tasks_taken + 1
                &&& final(self).tasks@ == old(self).tasks@.update(claimed.id as int, None)
            },
            *final(self) == (PickTaskQueue {
                tasks: final(self).tasks,
                tasks_taken: final(self).tasks_taken,
                ..*old(self)
            }),
    {
        if self.task_count < 0 || self.tasks_taken >= self.task_count as usize {
            return None;
        }
        let index: usize = self.tasks_taken;
        assert(self.tasks@[index as int] is Some);
        let mut slot: Option<PickTask<S>> = None;
        let ghost before = self.tasks@;
        core::mem::swap(&mut slot, &mut self.tasks[index]);
        self.tasks_taken = index + 1;
        match slot {
            Some(task) => Some(ClaimedTask { id: index, task }),
            None => None,
        }
    }

    /// Puts a task that has been carried out back into its slot.
    pub fn complete(&mut self, claimed: ClaimedTask<S>)
        requires
            old(self).wf(),
            claimed.id < old(self).tasks_taken,
            old(self).completed_tasks < old(self).tasks_taken,
        ensures
            final(self).wf(),
            final(self).completed_tasks == old(self).completed_tasks + 1,
            final(self).tasks@ == old(self).tasks@.update(
                claimed.id as int,
                Some(PickTask { complete: true, ..claimed.task }),
            ),
            *final(self) == (PickTaskQueue {
                tasks: final(self).tasks,
                completed_tasks: final(self).completed_tasks,
                ..*old(self)
            }),
    {
        let id: usize = claimed.id;
        let mut task: PickTask<S> = claimed.task;
        task.complete = true;
        self.tasks[id] = Some(task);
        self.completed_tasks = self.completed_tasks + 1;
    }

    /// Whether every published task is complete.
    pub fn is_done(&self) -> (r: bool)
        requires
            self.wf(),
        ensures
            r == self.spec_is_done(),
    {
        self.task_count < 0 || self.completed_tasks >= self.task_count as usize
    }

    /// Asks for a task in a phase that the producer ends by sealing it.
    pub fn poll_until_phase_sealed(&mut self) -> (r: TaskPoll<S>)
        requires
            old(self).wf(),
        ensures
            final(self).wf(),
            r is Run == old(self).has_task(),
            r is Leave == (!old(self).has_task() && old(self).phase_sealed),
            r is Sleep == (!old(self).has_task() && !old(self).phase_sealed),
            !(r is Run) ==> *final(self) == *old(self),
            r matches TaskPoll::Run(claimed) ==> {
                &&& claimed.id == old(self).tasks_taken
                &&& old(self).tasks@[claimed.id as int] == Some(claimed.task)
                &&& final(self).tasks_taken == old(self).tasks_taken + 1
                &&& final(self).tasks@ == old(self).tasks@.update(claimed.id as int, None)
            },
            *final(self) == (PickTaskQueue {
                tasks: final(self).tasks,
                tasks_taken: final(self).tasks_taken,
                ..*old(self)
            }),
    {
        match self.take() {
            Some(claimed) => TaskPoll::Run(claimed),
            None => if self.phase_sealed {
                TaskPoll::Leave
            } else {
                TaskPoll::Sleep
            },
        }
    }

    /// Asks for a task as a worker that lives through many phases: it sleeps
    /// between phases and leaves once the queue is closed.
    pub fn poll_blocking(&mut self) -> (r: TaskPoll<S>)
        requires
            old(self).wf(),
        ensures
            final(self).wf(),
            r is Run == old(self).has_task(),
            r is Leave == (!old(self).has_task() && old(self).exiting),
            r is Sleep == (!old(self).has_task() && !old(self).exiting && old(self).task_count
                == -1),
            !(r is Run) ==> *final(self) == *old(self),
            r matches TaskPoll::Run(claimed) ==> {
                &&& claimed.id == old(self).tasks_taken
                &&& old(self).tasks@[claimed.id as int] == Some(claimed.task)
                &&& final(self).tasks_taken == old(self).tasks_taken + 1
                &&& final(self).tasks@ == old(self).tasks@.update(claimed.id as int, None)
            },
            *final(self) == (PickTaskQueue {
                tasks: final(self).tasks,
                tasks_taken: final(self).tasks_taken,
                ..*old(self)
            }),
    {
        match self.take() {
            Some(claimed) => TaskPoll::Run(claimed),
            None => if self.exiting {
                TaskPoll::Leave
            } else if self.task_count != -1 {
                TaskPoll::Spin
            } else {
                TaskPoll::Sleep
            },
        }
    }

    /// Ends the publication of tasks; those published can still be taken.
    pub fn seal_phase(&mut self)
        ensures
            *final(self) == (PickTaskQueue { phase_sealed: true, ..*old(self) }),
            old(self).wf() ==> final(self).wf(),
    {
        self.phase_sealed = true;
    }

    /// Ends the phase.
    pub fn idle(&mut self)
        ensures
            *final(self) == (PickTaskQueue { task_count: -1isize, ..*old(self) }),
            old(self).wf() ==> final(self).wf(),
    {
        self.task_count = -1;
    }

    /// Ends the phase for good.
    pub fn close(&mut self)
        ensures
            *final(self) == (PickTaskQueue { task_count: -1isize, exiting: true, ..*old(self) }),
            old(self).wf() ==> final(self).wf(),
    {
        self.exiting = true;
        self.task_count = -1;
    }

    /// Moves the results of all tasks, in order, to the end of a batch.
    pub fn drain_results_into(&mut self, receiver: &mut Vec<NodeToProcess<S>>)
        requires
            old(self).wf(),
            old(self).spec_is_done(),
        ensures
            final(self).wf(),
            final(receiver)@ == old(receiver)@ + results_of(
                old(self).tasks@,
                old(self).tasks@.len() as int,
            ),
            final(self).tasks@.len() == old(self).tasks@.len(),
            forall|i: int|
                0 <= i < old(self).tasks@.len() ==> match #[trigger] old(self).tasks@[i] {
                    Some(task) => final(self).tasks@[i] matches Some(left) && left.results@.len()
                        == 0 && left == (PickTask { results: left.results, ..task }),
                    None => final(self).tasks@[i] is None,
                },
            *final(self) == (PickTaskQueue { tasks: final(self).tasks, ..*old(self) }),
    {
        let mut i: usize = 0;
        assert(old(receiver)@ + results_of(old(self).tasks@, 0) =~= old(receiver)@);
        while i < self.tasks.len()
            invariant
                old(self).wf(),
                i <= self.tasks@.len(),
                self.tasks@.len() == old(self).tasks@.len(),
                receiver@ == old(receiver)@ + results_of(old(self).tasks@, i as int),
                forall|k: int| i <= k < self.tasks@.len() ==> self.tasks@[k] == old(self).tasks@[k],
                forall|k: int|
                    0 <= k < i ==> match #[trigger] old(self).tasks@[k] {
                        Some(task) => self.tasks@[k] matches Some(left) && left.results@.len() == 0
                            && left == (PickTask { results: left.results, ..task }),
                        None => self.tasks@[k] is None,
                    },
                *self == (PickTaskQueue { tasks: self.tasks, ..*old(self) }),
            decreases self.tasks@.len() - i,
        {
            let mut slot: Option<PickTask<S>> = None;
            core::mem::swap(&mut slot, &mut self.tasks[i]);
            match slot {
                Some(task) => {
                    let mut left: PickTask<S> = task;
                    receiver.append(&mut left.results);
                    self.tasks[i] = Some(left);
                },
                None => {},
            }
            i += 1;
            proof {
                assert(receiver@ =~= old(receiver)@ + results_of(old(self).tasks@, i as int));
            }
        }
        proof {
            assert forall|k: int| self.tasks_taken <= k < self.tasks@.len() implies #[trigger] self.tasks@[k] is Some by {
                assert(old(self).tasks@[k] is Some);
            }
        }
    }
}

/// The roots stay disjoint while the tree grows.
pub proof fn law_roots_stay_disjoint<S: Scalar>(
    before: Seq<Node<S>>,
    after: Seq<Node<S>>,
    roots: Seq<usize>,
)
    requires
        disjoint_roots(before, roots),
        before.len() <= after.len(),
        forall|i: int| 0 <= i < roots.len() ==> #[trigger] roots[i] < before.len(),
        forall|j: int| 0 <= j < before.len() ==> (#[trigger] before[j]).parent == after[j].parent,
    ensures
        disjoint_roots(after, roots),
{
    assert forall|a: int, b: int| 0 <= a < b < roots.len() implies !overlap(
        after,
        (#[trigger] roots[a]) as int,
        (#[trigger] roots[b]) as int,
    ) by {
        lemma_ancestor_stable(before, after, roots[a] as int, roots[b] as int);
        lemma_ancestor_stable(before, after, roots[b] as int, roots[a] as int);
        assert(!overlap(before, roots[a] as int, roots[b] as int));
    }
}

/// The entries between two places that are no collisions.
pub open spec fn real_visits<S>(minibatch: Seq<NodeToProcess<S>>, from: int, to: int) -> nat
    decreases to - from,
{
    if from >= to {
        0
    } else {
        real_visits(minibatch, from, to - 1) + if minibatch[to - 1].is_collision {
            0nat
        } else {
            1nat
        }
    }
}

/// The tasks are for adjoining ranges from `from` to `to`. Each range holds
/// `per_worker` entries that are no collisions, the last of them at its end.
pub open spec fn adjoining_ranges<S: Scalar>(
    tasks: Seq<Option<PickTask<S>>>,
    minibatch: Seq<NodeToProcess<S>>,
    from: int,
    to: int,
    per_worker: int,
) -> bool
    decreases tasks.len(),
{
    if tasks.len() == 0 {
        from == to
    } else {
        &&& tasks.last() matches Some(task)
        &&& from <= task.start_idx < task.end_idx
        &&& task.processes(task.start_idx as int, to)
        &&& real_visits(minibatch, task.start_idx as int, to) == per_worker
        &&& !minibatch[to - 1].is_collision
        &&& adjoining_ranges(
            tasks.drop_last(),
            minibatch,
            from,
            task.start_idx as int,
            per_worker,
        )
    }
}

/// Into how many parts work on so many entries is split.
pub open spec fn part_count<S>(params: SearchParams<S>, task_workers: int, non_collisions: int) -> int {
    let wanted = non_collisions / params.minimum_work_per_task_for_processing as int;
    if wanted < 2 {
        2
    } else if wanted > task_workers + 1 {
        task_workers + 1
    } else {
        wanted
    }
}

/// Whether so many entries are enough to split the work.
pub open spec fn splits_work<S>(params: SearchParams<S>, task_workers: int, non_collisions: int) -> bool {
    task_workers > 0 && non_collisions >= params.minimum_work_size_for_processing
}

/// Publishes tasks for the front part of the new entries of a batch and returns
/// where the rest begins, with whether there are tasks to wait for.
///
/// The ranges adjoin each other and the rest, so no entry has two owners. There
/// is one task less than there are parts, unless the entries run out.
pub fn split_processing_tasks<S: Scalar>(
    queue: &mut PickTaskQueue<S>,
    params: &SearchParams<S>,
    task_workers: i32,
    minibatch: &Vec<NodeToProcess<S>>,
    new_start: usize,
    non_collisions: usize,
) -> (r: (usize, bool))
    requires
        old(queue).wf(),
        new_start <= minibatch@.len(),
        splits_work(*params, task_workers as int, non_collisions as int)
            ==> params.minimum_work_per_task_for_processing > 0,
    ensures
        final(queue).wf(),
        !splits_work(*params, task_workers as int, non_collisions as int) ==> r == (
            new_start,
            false,
        ) && *final(queue) == *old(queue),
        splits_work(*params, task_workers as int, non_collisions as int) ==> {
            let parts = part_count(*params, task_workers as int, non_collisions as int);
            let per_worker = non_collisions as int / parts;
            &&& new_start <= r.0 <= minibatch@.len()
            &&& r.1 == (final(queue).tasks@.len() > 0)
            &&& final(queue).tasks@.len() <= parts - 1
            &&& adjoining_ranges(
                final(queue).tasks@,
                minibatch@,
                new_start as int,
                r.0 as int,
                per_worker,
            )
            &&& final(queue).tasks@.len() < parts - 1 && final(queue).tasks@.len() < MAX_TASKS
                ==> per_worker == 0 || real_visits(minibatch@, r.0 as int, minibatch@.len() as int)
                < per_worker
            &&& final(queue).task_count == final(queue).tasks@.len()
            &&& final(queue).tasks_taken == 0 && final(queue).completed_tasks == 0
            &&& final(queue).gathering_roots@.len() == 0 && !final(queue).phase_sealed
            &&& final(queue).exiting == old(queue).exiting
        },
{
    let mut main_start: usize = new_start;
    if task_workers <= 0 || non_collisions < params.minimum_work_size_for_processing as usize {
        return (main_start, false);
    }
    let min_per_task: usize = params.minimum_work_per_task_for_processing as usize;
    let most: u64 = task_workers as u64 + 1;
    let wanted: usize = non_collisions / min_per_task;
    let num_tasks: u64 = if wanted < 2 {
        2
    } else if wanted as u64 > most {
        most
    } else {
        wanted as u64
    };
    let per_worker: u64 = non_collisions as u64 / num_tasks;
    queue.reset();
    let mut found: u64 = 0;
    let mut queued: u64 = 0;
    let mut index: usize = new_start;
    while index < minibatch.len()
        invariant_except_break
            queued < num_tasks - 1,
            found == real_visits(minibatch@, main_start as int, index as int),
            found <= index,
            per_worker > 0 ==> found < per_worker,
        invariant
            queue.wf(),
            new_start <= main_start <= index <= minibatch@.len(),
            num_tasks >= 2,
            queued == queue.tasks@.len(),
            queue.task_count == queue.tasks@.len(),
            queued <= num_tasks - 1,
            adjoining_ranges(
                queue.tasks@,
                minibatch@,
                new_start as int,
                main_start as int,
                per_worker as int,
            ),
            queue.tasks_taken == 0,
            queue.completed_tasks == 0,
            queue.gathering_roots@.len() == 0,
            !queue.phase_sealed,
            queue.exiting == old(queue).exiting,
        ensures
            queued < num_tasks - 1 && queued < MAX_TASKS ==> per_worker == 0 || real_visits(
                minibatch@,
                main_start as int,
                minibatch@.len() as int,
            ) < per_worker,
        decreases minibatch@.len() - index,
    {
        if minibatch[index].is_collision {
            index += 1;
            continue;
        }
        found += 1;
        if found == per_worker {
            let ghost before = queue.tasks@;
            if !queue.push(PickTask::processing(main_start, index + 1)) {
                break;
            }
            proof {
                assert(queue.tasks@.drop_last() =~= before);
                assert(queue.tasks@.last() is Some);
            }
            main_start = index + 1;
            found = 0;
            queued += 1;
            index += 1;
            if queued == num_tasks - 1 {
                break;
            }
        } else {
            index += 1;
        }
    }
    (main_start, queued > 0)
}

} // verus!
