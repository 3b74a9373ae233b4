//! What becomes of the tree, of the lines that wait and of the lines that are ready when the
//! rows of a reply are dealt with one after the other.
use vstd::prelude::*;

use crate::error::EnginError;
use crate::scalar::Scalar;
use crate::stream::complete::claim_given_back;
use crate::stream::evaluate::carries;
use crate::stream::event::{without_line, BackpropEvent, Event};
use crate::stream::publish::{is_published_at, paired, EvalEvent, Evaluation};
use crate::stream::reply::first_fault;
use crate::stream::shared::other_waiters;
use crate::stream::tree::NodeModel;

verus! {

/// How far a reply has been dealt with.
pub struct ReplyState<S> {
    pub nodes: Seq<NodeModel<S>>,
    pub waiters: Seq<Event<S>>,
    /// The lines that are to be carried back.
    pub ready: Seq<BackpropEvent<S>>,
}

/// Whether a leaf got its edges, and its line is ready.
pub open spec fn is_published<S: Scalar>(
    item: EvalEvent<S>,
    eval: Evaluation<S>,
    s: ReplyState<S>,
    t: ReplyState<S>,
) -> bool {
    &&& is_published_at(
        s.nodes,
        t.nodes,
        item.event.node_id,
        paired(item.legal_moves@, eval.policies@),
    )
    &&& t.waiters == s.waiters
    &&& t.ready.len() == s.ready.len() + 1
    &&& t.ready.drop_last() == s.ready
    &&& carries(t.ready.last(), item.event, eval)
    &&& t.ready.last().holds_nn_credit
}

/// Whether the claim of a leaf was given back, with its line and those that waited for it.
pub open spec fn is_given_back<S: Scalar>(
    item: EvalEvent<S>,
    s: ReplyState<S>,
    t: ReplyState<S>,
) -> bool {
    &&& t.nodes == without_line(
        claim_given_back(s.nodes, s.waiters, item.event.node_id),
        item.event,
    )
    &&& t.waiters == other_waiters(s.waiters, item.event.node_id, 0)
    &&& t.ready == s.ready
}

/// Whether one leaf was dealt with: it is published unless the search stops or a row up to its
/// own could not be read.
pub open spec fn is_answered<S: Scalar>(
    events: Seq<EvalEvent<S>>,
    rows: Seq<Result<Evaluation<S>, EnginError>>,
    stopping: bool,
    k: int,
    s: ReplyState<S>,
    t: ReplyState<S>,
) -> bool {
    if !stopping && first_fault(rows, k + 1) is None {
        is_published(events[k], rows[k]->Ok_0, s, t)
    } else {
        is_given_back(events[k], s, t)
    }
}

/// Whether the first leaves were dealt with in their order, with these states in between.
#[verifier::opaque]
pub open spec fn is_course<S: Scalar>(
    events: Seq<EvalEvent<S>>,
    rows: Seq<Result<Evaluation<S>, EnginError>>,
    stopping: bool,
    course: Seq<ReplyState<S>>,
) -> bool {
    forall|k: int|
        0 <= k < course.len() - 1 ==> is_answered(
            events,
            rows,
            stopping,
            k,
            #[trigger] course[k],
            course[k + 1],
        )
}

/// Whether dealing with the first `count` leaves leads from one state to another.
pub open spec fn are_answered<S: Scalar>(
    events: Seq<EvalEvent<S>>,
    rows: Seq<Result<Evaluation<S>, EnginError>>,
    stopping: bool,
    count: int,
    s: ReplyState<S>,
    t: ReplyState<S>,
) -> bool {
    exists|course: Seq<ReplyState<S>>|
        {
            &&& #[trigger] is_course(events, rows, stopping, course)
            &&& course.len() == count + 1
            &&& course[0] == s
            &&& course.last() == t
        }
}

pub proof fn lemma_answers_begin<S: Scalar>(
    events: Seq<EvalEvent<S>>,
    rows: Seq<Result<Evaluation<S>, EnginError>>,
    stopping: bool,
    s: ReplyState<S>,
)
    ensures
        are_answered(events, rows, stopping, 0, s, s),
{
    reveal(is_course);
    let course = seq![s];
    assert(is_course(events, rows, stopping, course));
    assert(course.last() == s);
}

pub proof fn lemma_answers_go_on<S: Scalar>(
    events: Seq<EvalEvent<S>>,
    rows: Seq<Result<Evaluation<S>, EnginError>>,
    stopping: bool,
    k: int,
    s: ReplyState<S>,
    m: ReplyState<S>,
    t: ReplyState<S>,
)
    requires
        0 <= k,
        are_answered(events, rows, stopping, k, s, m),
        is_answered(events, rows, stopping, k, m, t),
    ensures
        are_answered(events, rows, stopping, k + 1, s, t),
{
    reveal(is_course);
    let course = choose|course: Seq<ReplyState<S>>|
        {
            &&& #[trigger] is_course(events, rows, stopping, course)
            &&& course.len() == k + 1
            &&& course[0] == s
            &&& course.last() == m
        };
    let longer = course.push(t);
    assert forall|j: int| 0 <= j < longer.len() - 1 implies is_answered(
        events,
        rows,
        stopping,
        j,
        #[trigger] longer[j],
        longer[j + 1],
    ) by {
        if j < k {
            assert(longer[j] == course[j] && longer[j + 1] == course[j + 1]);
        } else {
            assert(longer[j] == course.last());
        }
    }
    assert(is_course(events, rows, stopping, longer));
    assert(longer[0] == s);
    assert(longer.last() == t);
}

} // verus!
