//! What becomes of the tree and the counters when the entries of a batch are settled one
//! after the other.
use vstd::prelude::*;

use crate::classic::backup::{counted_visit, taken_back, WorkerSearchState};
use crate::classic::carry::Backup;
use crate::classic::params::SearchParams;
use crate::classic::tasks::NodeToProcess;
use crate::classic::tree::NodeTree;
use crate::position::Move;
use crate::scalar::Scalar;

verus! {

/// The tree and the counters of a search at one time.
pub struct Moment<S> {
    pub tree: NodeTree<S>,
    pub state: WorkerSearchState,
}

/// What settling reads.
pub struct Settling<S> {
    pub params: SearchParams<S>,
    pub root_is_black: bool,
    pub filter: Seq<Move>,
}

impl<S: Scalar> Settling<S> {
    /// Whether the result of an entry was carried up and its visits counted.
    pub open spec fn is_visit_settled(
        self,
        item: NodeToProcess<S>,
        before: Moment<S>,
        after: Moment<S>,
    ) -> bool {
        &&& (Backup {
            params: self.params,
            head: before.tree.head() as usize,
            root_is_black: self.root_is_black,
            filter: self.filter,
            multivisit: item.multivisit,
        }).is_carried_up(
            before.tree,
            item,
            before.state.current_best_edge,
            after.tree,
            after.state.current_best_edge,
        )
        &&& after.state == counted_visit(before.state, item, after.state.current_best_edge)
    }

    /// Whether an entry was settled: a collision is taken back, a result carried up. With
    /// `early_only`, only entries that were completed early have a result.
    pub open spec fn is_entry_settled(
        self,
        early_only: bool,
        item: NodeToProcess<S>,
        before: Moment<S>,
        after: Moment<S>,
    ) -> bool {
        if item.is_collision {
            &&& after.state == before.state
            &&& after.tree == (NodeTree { arena: after.tree.arena, ..before.tree })
            &&& taken_back(
                before.tree.nodes(),
                after.tree.nodes(),
                before.tree.head(),
                item.node_idx as int,
                item.multivisit as int,
            )
        } else if !early_only || item.ooo_completed {
            self.is_visit_settled(item, before, after)
        } else {
            after == before
        }
    }

    /// Whether entries were settled in their order, with these moments in between.
    #[verifier::opaque]
    pub open spec fn is_course(
        self,
        early_only: bool,
        items: Seq<NodeToProcess<S>>,
        course: Seq<Moment<S>>,
    ) -> bool {
        &&& course.len() == items.len() + 1
        &&& forall|k: int|
            0 <= k < items.len() ==> self.is_entry_settled(
                early_only,
                #[trigger] items[k],
                course[k],
                course[k + 1],
            )
    }

    /// Whether settling entries in their order leads from one moment to another.
    pub open spec fn are_settled(
        self,
        early_only: bool,
        items: Seq<NodeToProcess<S>>,
        before: Moment<S>,
        after: Moment<S>,
    ) -> bool {
        exists|course: Seq<Moment<S>>| #[trigger]
            self.is_course(early_only, items, course) && course[0] == before && course.last()
                == after
    }

    pub proof fn lemma_course_begins(self, early_only: bool, before: Moment<S>)
        ensures
            self.are_settled(early_only, Seq::empty(), before, before),
    {
        reveal(Settling::is_course);
        let course = seq![before];
        assert(self.is_course(early_only, Seq::empty(), course));
        assert(course.last() == before);
    }

    pub proof fn lemma_course_goes_on(
        self,
        early_only: bool,
        items: Seq<NodeToProcess<S>>,
        item: NodeToProcess<S>,
        before: Moment<S>,
        middle: Moment<S>,
        after: Moment<S>,
    )
        requires
            self.are_settled(early_only, items, before, middle),
            self.is_entry_settled(early_only, item, middle, after),
        ensures
            self.are_settled(early_only, items.push(item), before, after),
    {
        reveal(Settling::is_course);
        let course = choose|course: Seq<Moment<S>>| #[trigger]
            self.is_course(early_only, items, course) && course[0] == before && course.last()
                == middle;
        let longer = course.push(after);
        let more = items.push(item);
        assert forall|k: int| 0 <= k < more.len() implies self.is_entry_settled(
            early_only,
            #[trigger] more[k],
            longer[k],
            longer[k + 1],
        ) by {
            if k < items.len() {
                assert(more[k] == items[k]);
                assert(longer[k] == course[k] && longer[k + 1] == course[k + 1]);
            } else {
                assert(longer[k] == course.last());
            }
        }
        assert(self.is_course(early_only, more, longer));
        assert(longer[0] == before);
        assert(longer.last() == after);
    }
}

} // verus!
