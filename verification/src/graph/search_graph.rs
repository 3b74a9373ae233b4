//! The graph that is kept from one search to the next.
use vstd::prelude::*;

use crate::error::EnginError;
use crate::graph::history::{is_beginning_of, History};
use crate::graph::key::NodeKey;
use crate::graph::node::NodeModel;
use crate::graph::repository::NodeRepository;
use crate::position::{Move, Position};
use crate::scalar::Scalar;

verus! {

/// A graph with the position that it is searched from.
#[derive(Debug)]
pub struct SearchGraph<S> {
    pub repository: NodeRepository<S>,
    pub root_key: NodeKey,
    pub root_history: History,
    /// Whether the root moved on, so that nodes may have been left behind.
    pub gc_pending: bool,
}

/// The legal moves of a position, with the histories that they lead to.
#[derive(Debug)]
pub struct Continuations {
    pub replies: Vec<(Move, History)>,
}

impl Continuations {
    /// Whether every move leads to a position.
    pub open spec fn wf(self) -> bool {
        forall|i: int| 0 <= i < self.replies@.len() ==> (#[trigger] self.replies@[i]).1.positions@.len() > 0
    }

    /// Whether reply `i` is the first that leads to a board.
    pub open spec fn first_to(self, board: u64, i: int) -> bool {
        &&& 0 <= i < self.replies@.len()
        &&& self.replies@[i].1.spec_last().board == board
        &&& forall|j: int|
            0 <= j < i ==> (#[trigger] self.replies@[j]).1.spec_last().board != board
    }

    /// Whether some reply leads to a board.
    pub open spec fn leads_to(self, board: u64) -> bool {
        exists|i: int| self.first_to(board, i)
    }

    /// The first reply that leads to a board.
    pub fn find(&self, board: u64) -> (r: Option<usize>)
        requires
            self.wf(),
        ensures
            r is Some == self.leads_to(board),
            r matches Some(i) ==> self.first_to(board, i as int),
    {
        let mut i: usize = 0;
        while i < self.replies.len()
            invariant
                self.wf(),
                i <= self.replies@.len(),
                forall|j: int|
                    0 <= j < i ==> (#[trigger] self.replies@[j]).1.spec_last().board != board,
            decreases self.replies@.len() - i,
        {
            assert(self.replies@[i as int].1.positions@.len() > 0);
            if self.replies[i].1.last().board == board {
                assert(self.first_to(board, i as int));
                return Some(i);
            }
            i += 1;
        }
        None
    }
}

/// Whether no visit is under way in a graph.
pub open spec fn all_settled<S: Scalar>(nodes: Map<NodeKey, NodeModel<S>>) -> bool where S: Scalar {
    forall|key: NodeKey| #[trigger] nodes.contains_key(key) ==> nodes[key].settled()
}

/// Whether a graph is another with one node more at most.
pub open spec fn with_node<S: Scalar>(
    before: Map<NodeKey, NodeModel<S>>,
    after: Map<NodeKey, NodeModel<S>>,
    key: NodeKey,
) -> bool {
    &&& after.contains_key(key)
    &&& after == before.insert(key, after[key])
    &&& if before.contains_key(key) {
        after[key] == before[key]
    } else {
        after[key].is_fresh()
    }
}

/// The history that the first reply to a board leads to.
pub open spec fn history_to(step: Continuations, board: u64) -> History {
    step.replies@[choose|i: int| step.first_to(board, i)].1
}

/// Whether the first `k` steps lead along a line of positions.
pub open spec fn leads_along(steps: Seq<Continuations>, line: Seq<Position>, k: int) -> bool {
    forall|j: int| 0 <= j < k ==> (#[trigger] steps[j]).leads_to(line[j].board)
}

/// Whether a node was passed on the first `k` steps along a line of positions.
pub open spec fn is_passed(
    steps: Seq<Continuations>,
    line: Seq<Position>,
    k: int,
    key: NodeKey,
) -> bool {
    exists|j: int|
        0 <= j < k && #[trigger] history_to(steps[j], line[j].board).spec_key() == key
}

proof fn lemma_first_is_unique(step: Continuations, board: u64, i: int)
    requires
        step.first_to(board, i),
    ensures
        step.leads_to(board),
        history_to(step, board) == step.replies@[i].1,
{
    let k = choose|k: int| step.first_to(board, k);
    assert(step.first_to(board, k));
    if k < i {
        assert(step.replies@[k].1.spec_last().board != board);
    }
    if i < k {
        assert(step.replies@[i].1.spec_last().board != board);
    }
}

impl<S: Scalar> SearchGraph<S> {
    /// The root is that of its history.
    pub open spec fn wf(&self) -> bool {
        &&& self.repository.wf()
        &&& self.root_history.positions@.len() > 0
        &&& self.root_key == self.root_history.spec_key()
    }

    /// A graph without nodes.
    pub fn new(root_history: History) -> (r: Self)
        requires
            root_history.positions@.len() > 0,
        ensures
            r.wf(),
            r.repository@ == Map::<NodeKey, NodeModel<S>>::empty(),
            r.repository.slots@.len() == 0,
            r.root_history == root_history,
            !r.gc_pending,
    {
        let root_key: NodeKey = root_history.key();
        SearchGraph {
            repository: NodeRepository::default(),
            root_key,
            root_history,
            gc_pending: false,
        }
    }

    pub fn repository(&self) -> (r: &NodeRepository<S>)
        ensures
            *r == self.repository,
    {
        &self.repository
    }

    pub fn root_key(&self) -> (r: NodeKey)
        ensures
            r == self.root_key,
    {
        self.root_key
    }

    pub fn root_history(&self) -> (r: &History)
        ensures
            *r == self.root_history,
    {
        &self.root_history
    }

    /// The graph with another root, which has a node from now on.
    pub open spec fn moved_to(&self, after: Self, history: History) -> bool {
        &&& after.wf()
        &&& after.root_history.same_as(history)
        &&& after.root_key == history.spec_key()
        &&& after.gc_pending
        &&& with_node(self.repository@, after.repository@, history.spec_key())
    }

    /// Moves the root on to one of its legal moves. While visits are under way this is
    /// refused.
    pub fn advance(&mut self, mv: Move, continuations: &Continuations) -> (r: Result<(), EnginError>)
        requires
            old(self).wf(),
            continuations.wf(),
        ensures
            final(self).wf(),
            r is Ok <==> all_settled(old(self).repository@) && continuations.allows(mv),
            r matches Err(error) ==> error == (if all_settled(old(self).repository@) {
                EnginError::Unsupported("search graph advance requires a legal move")
            } else {
                EnginError::Unsupported("search graph advance requires settled reservations")
            }),
            r is Err ==> *final(self) == *old(self),
            r is Ok ==> exists|i: int|
                #[trigger] continuations.first_move(mv, i) && old(self).moved_to(
                    *final(self),
                    continuations.replies@[i].1,
                ),
    {
        if !self.repository.is_settled() {
            return Err(
                EnginError::Unsupported("search graph advance requires settled reservations"),
            );
        }
        self.advance_settled(mv, continuations)
    }

    /// Moves the root on where no visit is under way.
    fn advance_settled(&mut self, mv: Move, continuations: &Continuations) -> (r: Result<
        (),
        EnginError,
    >)
        requires
            old(self).wf(),
            continuations.wf(),
        ensures
            final(self).wf(),
            r is Ok <==> continuations.allows(mv),
            r matches Err(error) ==> error == EnginError::Unsupported(
                "search graph advance requires a legal move",
            ),
            r is Err ==> *final(self) == *old(self),
            r is Ok ==> exists|i: int|
                #[trigger] continuations.first_move(mv, i) && old(self).moved_to(
                    *final(self),
                    continuations.replies@[i].1,
                ),
    {
        match continuations.find_move(mv) {
            None => Err(EnginError::Unsupported("search graph advance requires a legal move")),
            Some(i) => {
                assert(continuations.replies@[i as int].1.positions@.len() > 0);
                self.move_to(&continuations.replies[i].1);
                assert(continuations.first_move(mv, i as int));
                Ok(())
            },
        }
    }

    /// The graph after the first `k` steps along a line of positions.
    pub open spec fn moved_along(
        &self,
        after: Self,
        steps: Seq<Continuations>,
        line: Seq<Position>,
        k: int,
    ) -> bool {
        &&& after.wf()
        &&& forall|key: NodeKey| #[trigger]
            after.repository@.contains_key(key) <==> self.repository@.contains_key(key)
                || is_passed(steps, line, k, key)
        &&& forall|key: NodeKey| #[trigger]
            after.repository@.contains_key(key) ==> if self.repository@.contains_key(key) {
                after.repository@[key] == self.repository@[key]
            } else {
                after.repository@[key].is_fresh()
            }
        &&& if k == 0 {
            after.root_history == self.root_history && after.gc_pending == self.gc_pending
        } else {
            after.root_history.same_as(history_to(steps[k - 1], line[k - 1].board))
                && after.gc_pending
        }
    }

    /// The positions of a target beyond those of the root.
    pub open spec fn beyond(&self, target: History) -> Seq<Position> {
        target.positions@.skip(self.root_history.positions@.len() as int)
    }

    /// Whether a target continues the root.
    pub open spec fn is_continued_by(&self, target: History) -> bool {
        self.root_history.positions@.len() < target.positions@.len()
            && self.root_history.positions@.is_prefix_of(target.positions@)
    }

    /// Goes to a history. Where it continues the root, the root moves on along it; where
    /// it does not, a new graph begins and the old repository is handed back. `steps`
    /// holds the legal moves at each ply beyond the root. While visits are under way this
    /// is refused.
    pub fn reset_to_history(&mut self, target: &History, steps: &Vec<Continuations>) -> (r: Result<
        Option<NodeRepository<S>>,
        EnginError,
    >)
        requires
            old(self).wf(),
            target.positions@.len() > 0,
            forall|j: int| 0 <= j < steps@.len() ==> (#[trigger] steps@[j]).wf(),
            old(self).is_continued_by(*target) ==> steps@.len() == target.positions@.len() - old(self).root_history.positions@.len(),
        ensures
            !all_settled(old(self).repository@) ==> r is Err && *final(self) == *old(self),
            all_settled(old(self).repository@) ==> old(self).is_reset(
                *final(self),
                *target,
                steps@,
                r,
            ),
            r matches Err(error) ==> error == (if all_settled(old(self).repository@) {
                EnginError::Unsupported("search graph reset could not derive legal move")
            } else {
                EnginError::Unsupported("search graph reset requires settled reservations")
            }),
    {
        if !self.repository.is_settled() {
            return Err(
                EnginError::Unsupported("search graph reset requires settled reservations"),
            );
        }
        self.reset_to_history_settled(target, steps)
    }

    /// Goes to a history once all visits have been completed or given back.
    pub fn reset_to_history_after_drain(&mut self, target: &History, steps: &Vec<Continuations>)
        -> (r: Result<Option<NodeRepository<S>>, EnginError>)
        requires
            old(self).wf(),
            target.positions@.len() > 0,
            forall|j: int| 0 <= j < steps@.len() ==> (#[trigger] steps@[j]).wf(),
            old(self).is_continued_by(*target) ==> steps@.len() == target.positions@.len() - old(self).root_history.positions@.len(),
        ensures
            old(self).is_reset(*final(self), *target, steps@, r),
            r matches Err(error) ==> error == EnginError::Unsupported(
                "search graph reset could not derive legal move",
            ),
    {
        self.reset_to_history_settled(target, steps)
    }

    /// What becomes of a graph that goes to a history.
    pub open spec fn is_reset(
        &self,
        after: Self,
        target: History,
        steps: Seq<Continuations>,
        r: Result<Option<NodeRepository<S>>, EnginError>,
    ) -> bool {
        let line = self.beyond(target);
        &&& after.wf()
        &&& if self.root_history.positions@ == target.positions@ {
            r matches Ok(None) && after == *self
        } else if self.is_continued_by(target) {
            match r {
                Ok(retired) => {
                    &&& retired is None
                    &&& leads_along(steps, line, line.len() as int)
                    &&& self.moved_along(after, steps, line, line.len() as int)
                },
                Err(_) => exists|k: int|
                    #![trigger leads_along(steps, line, k)]
                    {
                        &&& 0 <= k < line.len()
                        &&& leads_along(steps, line, k)
                        &&& !steps[k].leads_to(line[k].board)
                        &&& self.moved_along(after, steps, line, k)
                    },
            }
        } else {
            &&& r matches Ok(Some(retired)) && retired == self.repository
            &&& after.root_history.same_as(target)
            &&& after.repository@ == Map::<NodeKey, NodeModel<S>>::empty()
            &&& after.repository.slots@.len() == 0
            &&& !after.gc_pending
        }
    }

    fn reset_to_history_settled(&mut self, target: &History, steps: &Vec<Continuations>) -> (r:
        Result<Option<NodeRepository<S>>, EnginError>)
        requires
            old(self).wf(),
            target.positions@.len() > 0,
            forall|j: int| 0 <= j < steps@.len() ==> (#[trigger] steps@[j]).wf(),
            old(self).is_continued_by(*target) ==> steps@.len() == target.positions@.len() - old(self).root_history.positions@.len(),
        ensures
            old(self).is_reset(*final(self), *target, steps@, r),
            r matches Err(error) ==> error == EnginError::Unsupported(
                "search graph reset could not derive legal move",
            ),
    {
        let base: usize = self.root_history.len();
        if is_beginning_of(&self.root_history.positions, &target.positions) {
            if base == target.len() {
                assert(self.root_history.positions@ =~= target.positions@);
                return Ok(None);
            }
            let total: usize = target.len();
            let count: usize = total - base;
            let ghost line = self.beyond(*target);
            let mut k: usize = 0;
            while k < count
                invariant
                    k <= count,
                    count == steps@.len(),
                    count == line.len(),
                    base == old(self).root_history.positions@.len(),
                    base + count == total,
                    total == target.positions@.len(),
                    old(self).is_continued_by(*target),
                    line == old(self).beyond(*target),
                    line == target.positions@.skip(base as int),
                    forall|j: int| 0 <= j < steps@.len() ==> (#[trigger] steps@[j]).wf(),
                    self.wf(),
                    leads_along(steps@, line, k as int),
                    old(self).moved_along(*self, steps@, line, k as int),
                decreases count - k,
            {
                let ghost before = self.repository@;
                let board: u64 = target.positions[base + k].board;
                assert(board == line[k as int].board);
                assert(steps@[k as int].wf());
                match steps[k].find(board) {
                    None => {
                        assert(leads_along(steps@, line, k as int));
                        return Err(
                            EnginError::Unsupported(
                                "search graph reset could not derive legal move",
                            ),
                        );
                    },
                    Some(i) => {
                        proof {
                            lemma_first_is_unique(steps@[k as int], board, i as int);
                            assert(steps@[k as int].replies@[i as int].1.positions@.len() > 0);
                        }
                        self.move_to(&steps[k].replies[i].1);
                        proof {
                            let key = history_to(steps@[k as int], board).spec_key();
                            assert forall|other: NodeKey|
                                is_passed(steps@, line, k + 1, other) == (is_passed(
                                    steps@,
                                    line,
                                    k as int,
                                    other,
                                ) || other == key) by {
                                if is_passed(steps@, line, k + 1, other) {
                                    let j = choose|j: int|
                                        0 <= j < k + 1 && #[trigger] history_to(
                                            steps@[j],
                                            line[j].board,
                                        ).spec_key() == other;
                                    if j < k {
                                        assert(is_passed(steps@, line, k as int, other));
                                    }
                                }
                                if is_passed(steps@, line, k as int, other) {
                                    let j = choose|j: int|
                                        0 <= j < k && #[trigger] history_to(
                                            steps@[j],
                                            line[j].board,
                                        ).spec_key() == other;
                                    assert(0 <= j < k + 1);
                                }
                                if other == key {
                                    assert(history_to(
                                        steps@[k as int],
                                        line[k as int].board,
                                    ).spec_key() == other);
                                }
                            }
                            assert(with_node(before, self.repository@, key));
                        }
                    },
                }
                k += 1;
            }
            return Ok(None);
        }
        proof {
            if self.root_history.positions@ == target.positions@ {
                assert(self.root_history.positions@ =~= target.positions@.subrange(
                    0,
                    target.positions@.len() as int,
                ));
            }
        }
        let mut retired: NodeRepository<S> = NodeRepository::default();
        std::mem::swap(&mut self.repository, &mut retired);
        self.root_key = target.key();
        self.root_history = target.copy();
        self.gc_pending = false;
        Ok(Some(retired))
    }

    fn move_to(&mut self, history: &History)
        requires
            old(self).wf(),
            history.positions@.len() > 0,
        ensures
            old(self).moved_to(*final(self), *history),
            final(self).wf(),
    {
        let new_root: NodeKey = history.key();
        let _ = self.repository.get_or_insert(new_root);
        self.root_key = new_root;
        self.root_history = history.copy();
        self.gc_pending = true;
    }

    /// Hands out the root once after it moved on, so that what it left behind can be
    /// dropped.
    pub fn take_pending_gc_root(&mut self) -> (r: Option<NodeKey>)
        ensures
            r == (if old(self).gc_pending {
                Some(old(self).root_key)
            } else {
                None
            }),
            *final(self) == (SearchGraph { gc_pending: false, ..*old(self) }),
    {
        if self.gc_pending {
            self.gc_pending = false;
            Some(self.root_key)
        } else {
            None
        }
    }
}

impl Continuations {
    /// Whether reply `i` is the first with a move.
    pub open spec fn first_move(self, mv: Move, i: int) -> bool {
        &&& 0 <= i < self.replies@.len()
        &&& self.replies@[i].0 == mv
        &&& forall|j: int| 0 <= j < i ==> (#[trigger] self.replies@[j]).0 != mv
    }

    /// Whether a move is legal.
    pub open spec fn allows(self, mv: Move) -> bool {
        exists|i: int| self.first_move(mv, i)
    }

    /// The reply with a move, if it is legal.
    pub fn find_move(&self, mv: Move) -> (r: Option<usize>)
        ensures
            r is Some == self.allows(mv),
            r matches Some(i) ==> self.first_move(mv, i as int),
    {
        let mut i: usize = 0;
        while i < self.replies.len()
            invariant
                i <= self.replies@.len(),
                forall|j: int| 0 <= j < i ==> (#[trigger] self.replies@[j]).0 != mv,
            decreases self.replies@.len() - i,
        {
            if self.replies[i].0 == mv {
                assert(self.first_move(mv, i as int));
                return Some(i);
            }
            i += 1;
        }
        None
    }
}

} // verus!
