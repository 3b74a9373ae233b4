//! What follows the claim of a leaf: its result, or its evaluation and its edges.
use vstd::prelude::*;

use crate::exact::{is_even_rounding, rounds_by};
use crate::position::{GameResult, Move};
use crate::scalar::Scalar;
use crate::stream::backprop::line_done;
use crate::stream::complete::{claim_given_back, lemma_same_edges_covered};
use crate::stream::event::{without_line, BackpropEvent, Event};
use crate::stream::expand::{classify_expand, spec_terminal_value, ExpandKind};
use crate::stream::proofs::proven_along;
use crate::stream::shared::{covered, held, other_waiters, waiters_given_back, Shared};
use crate::stream::tree::{
    leads_forward, published, ExpansionState, Node, NodeId, NodeModel,
};
use crate::stream::value::ValueDelta;

verus! {

/// What becomes of a claimed leaf.
#[derive(Debug)]
pub enum ExpandOutcome<S> {
    /// It is to be evaluated.
    Evaluate(Event<S>),
    /// Its game is over, and the result was carried back.
    Completed,
    /// The line was given back.
    Cancelled,
}

/// The tree with a result at a node.
pub open spec fn ended_at<S: Scalar>(nodes: Seq<NodeModel<S>>, id: NodeId, result: (S, S, S)) -> Seq<
    NodeModel<S>,
> {
    nodes.update(
        id as int,
        NodeModel {
            state: ExpansionState::Terminal,
            terminal: Some(result),
            ..nodes[id as int]
        },
    )
}

/// Whether two trees differ in states and results only.
pub open spec fn same_sums<S: Scalar>(a: Seq<NodeModel<S>>, b: Seq<NodeModel<S>>) -> bool {
    &&& a.len() == b.len()
    &&& forall|x: int|
        0 <= x < a.len() ==> (#[trigger] a[x]).edges == b[x].edges && a[x].stats == b[x].stats
}

proof fn lemma_proofs_keep_sums<S: Scalar>(
    nodes: Seq<NodeModel<S>>,
    path: Seq<NodeId>,
    root: NodeId,
    k: int,
)
    requires
        forall|i: int| 0 <= i < path.len() ==> #[trigger] path[i] < nodes.len(),
        0 <= k,
    ensures
        same_sums(nodes, proven_along(nodes, path, root, k)),
    decreases path.len() - k,
{
    if k < path.len() - 1 {
        lemma_proofs_keep_sums(nodes, path, root, k + 1);
        let later = proven_along(nodes, path, root, k + 1);
        assert(path[k] < nodes.len());
        let after = proven_along(nodes, path, root, k);
        assert forall|x: int| 0 <= x < nodes.len() implies (#[trigger] nodes[x]).edges
            == after[x].edges && nodes[x].stats == after[x].stats by {
            assert(nodes[x].edges == later[x].edges);
        }
    }
}

impl<S: Scalar> Shared<S> {
    /// What becomes of a claimed leaf whose game has a result: the leaf and what it proves
    /// take it over, and it is carried back.
    pub open spec fn is_ended(&self, after: Self, event: Event<S>, result: (S, S, S)) -> bool {
        let proven = proven_along(
            ended_at(self.arena@, event.node_id, result),
            event.node_path@,
            event.node_path@[0],
            0,
        );
        &&& exists|line: BackpropEvent<S>| #[trigger]
            ends_with(line, event, result) && after.arena@ == waiters_given_back(
                line_done(proven, line),
                self.collision_waiters@,
                event.node_id,
                0,
            )
        &&& after.collision_waiters@ == other_waiters(
            self.collision_waiters@,
            event.node_id,
            0,
        )
        &&& after.completed == self.completed + 1
        &&& after.outstanding == self.outstanding - (self.collision_waiters@.len()
            - after.collision_waiters@.len()) - 1
        &&& after.completed_depth == self.completed_depth + event.node_path@.len()
        &&& after == (Shared {
            arena: after.arena,
            collision_waiters: after.collision_waiters,
            outstanding: after.outstanding,
            completed: after.completed,
            completed_depth: after.completed_depth,
            max_depth: if event.node_path@.len() > self.max_depth {
                event.node_path@.len() as u64
            } else {
                self.max_depth
            },
            ..*self
        })
    }

    /// Whether a claimed leaf can be dealt with now.
    pub open spec fn can_expand(&self, event: Event<S>) -> bool {
        &&& self.can_cancel(event)
        &&& self.arena@[event.node_id as int].state == ExpansionState::Claimed
        &&& forall|x: int|
            0 <= x < self.arena@.len() ==> (#[trigger] self.arena@[x]).stats.visits < u32::MAX
        &&& self.completed < u64::MAX
        &&& self.completed_depth + event.node_path@.len() <= u64::MAX
        &&& self.returned_credits < usize::MAX
    }

    /// Deals with a claimed leaf: a finished game is carried back, any other position is
    /// to be evaluated. A search that stops gives the claim and the line back.
    pub fn process_expand_event(
        &mut self,
        event: Event<S>,
        game_result: GameResult,
        black_to_move: bool,
    ) -> (r: ExpandOutcome<S>)
        requires
            old(self).can_expand(event),
        ensures
            final(self).wf(),
            old(self).stopping ==> r is Cancelled && final(self).arena@ == without_line(
                claim_given_back(
                    old(self).arena@,
                    old(self).collision_waiters@,
                    event.node_id,
                ),
                event,
            ) && final(self).collision_waiters@ == other_waiters(
                old(self).collision_waiters@,
                event.node_id,
                0,
            ) && *final(self) == (Shared {
                arena: final(self).arena,
                collision_waiters: final(self).collision_waiters,
                outstanding: (old(self).outstanding - (old(self).collision_waiters@.len()
                    - final(self).collision_waiters@.len()) - 1) as usize,
                ..*old(self)
            }),
            !old(self).stopping ==> match spec_terminal_value::<S>(game_result, black_to_move) {
                Some(result) => r is Completed && old(self).is_ended(*final(self), event, result),
                None => r == ExpandOutcome::Evaluate(event) && *final(self) == *old(self),
            },
    {
        if self.stopping {
            self.cancel_claim(&event);
            return ExpandOutcome::Cancelled;
        }
        let ghost nodes = self.arena@;
        let ghost waiters = self.collision_waiters@;
        proof {
            let lines = waiters.push(event);
            assert(lines[lines.len() - 1] == event);
            assert(event.wf() && event.runs_through(nodes));
            assert(event.node_path@[event.node_path@.len() - 1] < nodes.len());
        }
        match classify_expand::<S>(game_result, black_to_move) {
            ExpandKind::Evaluate => ExpandOutcome::Evaluate(event),
            ExpandKind::Terminal { wl, draw, plies_left } => {
                let id: NodeId = event.node_id;
                let ghost result = (wl, draw, plies_left);
                let node: &mut Node<S> = self.arena.node_mut(id);
                node.mark_terminal(wl, draw, plies_left);
                let ghost ended = self.arena@;
                proof {
                    assert(ended == ended_at(nodes, id, result));
                    lemma_state_changed(nodes, ended, id);
                    lemma_proofs_keep_sums(ended, event.node_path@, event.node_path@[0], 0);
                }
                let root: NodeId = event.node_path[0];
                self.arena.propagate_proven_terminals(&event.node_path, root);
                proof {
                    let proven = self.arena@;
                    assert forall|x: int| 0 <= x < nodes.len() implies (#[trigger] nodes[x]).edges
                        == proven[x].edges && nodes[x].stats == proven[x].stats by {
                        assert(ended[x].edges == proven[x].edges);
                    }
                    lemma_same_edges_covered(nodes, proven, waiters.push(event));
                    lemma_same_edges_covered(nodes, proven, waiters);
                    assert forall|x: int| 0 <= x < proven.len() implies (
                    #[trigger] proven[x]).stats.visits < u32::MAX by {
                        assert(nodes[x].stats.visits < u32::MAX);
                        assert(nodes[x].stats == proven[x].stats);
                    }
                }
                let line: BackpropEvent<S> = BackpropEvent::without_nn_credit(
                    event,
                    wl,
                    draw,
                    plies_left,
                );
                assert(ends_with(line, event, result));
                self.process_backprop_one(&line);
                ExpandOutcome::Completed
            },
        }
    }
}

/// Whether a line is an event with a result.
pub open spec fn ends_with<S: Scalar>(
    line: BackpropEvent<S>,
    event: Event<S>,
    result: (S, S, S),
) -> bool {
    line.event == event && line.value == ValueDelta::spec_one(result.0, result.1, result.2)
}

/// A node without edges that changes its state to that of a finished game keeps its tree
/// consistent.
proof fn lemma_state_changed<S: Scalar>(
    before: Seq<NodeModel<S>>,
    after: Seq<NodeModel<S>>,
    id: NodeId,
)
    requires
        id < before.len(),
        after.len() == before.len(),
        forall|x: int| 0 <= x < before.len() && x != id ==> (#[trigger] after[x]) == before[x],
        after[id as int].edges == before[id as int].edges,
        after[id as int].state == ExpansionState::Terminal,
        after[id as int].terminal is Some,
        forall|i: int| 0 <= i < before.len() ==> (#[trigger] before[i]).wf(),
        leads_forward(before),
    ensures
        forall|i: int| 0 <= i < after.len() ==> (#[trigger] after[i]).wf(),
        leads_forward(after),
{
    assert forall|i: int| 0 <= i < after.len() implies (#[trigger] after[i]).wf() by {
        assert(before[i].wf());
        assert forall|j: int| 0 <= j < after[i].edges.len() implies (
        #[trigger] after[i].edges[j]).wf() by {
            assert(before[i].edges[j].wf());
        }
    }
    assert forall|i: int, j: int|
        0 <= i < after.len() && 0 <= j < after[i].edges.len() implies ((
    #[trigger] after[i].edges[j]).child matches Some(c) ==> i < c < after.len()) by {
        assert(before[i].edges[j].child == after[i].edges[j].child);
    }
}

/// What the network says about a position, seen by the side to move.
#[derive(Debug)]
pub struct Evaluation<S> {
    pub wl: S,
    pub d: S,
    pub plies_left: S,
    /// The share of each legal move, in their order.
    pub policies: Vec<S>,
}

/// A leaf that is evaluated, with its legal moves.
#[derive(Debug)]
pub struct EvalEvent<S> {
    pub event: Event<S>,
    pub legal_moves: Vec<Move>,
}

/// Moves with their shares, as many as there are of both.
pub open spec fn paired<S>(moves: Seq<Move>, policies: Seq<S>) -> Seq<(Move, S)> {
    Seq::new(
        if moves.len() < policies.len() {
            moves.len()
        } else {
            policies.len()
        },
        |i: int| (moves[i], policies[i]),
    )
}

fn pair<S: Scalar>(moves: &Vec<Move>, policies: &Vec<S>) -> (r: Vec<(Move, S)>)
    ensures
        r@ == paired(moves@, policies@),
{
    let mut pairs: Vec<(Move, S)> = Vec::new();
    let mut i: usize = 0;
    while i < moves.len() && i < policies.len()
        invariant
            i <= moves@.len(),
            i <= policies@.len(),
            pairs@.len() == i,
            forall|j: int| 0 <= j < i ==> #[trigger] pairs@[j] == (moves@[j], policies@[j]),
        decreases moves@.len() - i,
    {
        pairs.push((moves[i], policies[i]));
        i += 1;
    }
    assert(pairs@ =~= paired(moves@, policies@));
    pairs
}

/// Whether a tree is another with edges published at a claimed node.
pub open spec fn is_published_at<S: Scalar>(
    before: Seq<NodeModel<S>>,
    after: Seq<NodeModel<S>>,
    id: NodeId,
    given: Seq<(Move, S)>,
) -> bool {
    let node = after[id as int];
    &&& published(node.edges, given)
    &&& after == before.update(
        id as int,
        NodeModel { state: ExpansionState::Expanded, edges: node.edges, ..before[id as int] },
    )
}

/// Publishing edges keeps all lines covered: no line can hold an edge that was not there.
pub(crate) proof fn lemma_published_covered<S: Scalar>(
    before: Seq<NodeModel<S>>,
    after: Seq<NodeModel<S>>,
    id: NodeId,
    given: Seq<(Move, S)>,
    lines: Seq<Event<S>>,
)
    requires
        id < before.len(),
        before[id as int].edges.len() == 0,
        is_published_at(before, after, id, given),
        covered(before, lines),
    ensures
        covered(after, lines),
{
    assert forall|x: int, e: int|
        0 <= x < after.len() && 0 <= e < after[x].edges.len() implies #[trigger] held(lines, x, e)
        <= after[x].edges[e].spec_in_flight() by {
        if x == id {
            assert(held(lines, x, e) == 0) by {
                lemma_nobody_holds(before, lines, x, e, lines.len() as int);
                assert(lines.take(lines.len() as int) =~= lines);
            }
        } else {
            assert(held(lines, x, e) <= before[x].edges[e].spec_in_flight());
        }
    }
    assert forall|j: int| 0 <= j < lines.len() implies (#[trigger] lines[j]).wf()
        && lines[j].runs_through(after) by {
        let line = lines[j];
        assert(line.wf() && line.runs_through(before));
        assert forall|i: int| 0 <= i < line.reservations@.len() implies (
        #[trigger] line.reservations@[i]).edge < after[line.node_path@[i] as int].edges.len() by {
            assert(line.node_path@[i] < before.len());
            assert(line.reservations@[i].edge < before[line.node_path@[i] as int].edges.len());
        }
    }
}

proof fn lemma_nobody_holds<S: Scalar>(
    nodes: Seq<NodeModel<S>>,
    lines: Seq<Event<S>>,
    x: int,
    e: int,
    k: int,
)
    requires
        0 <= k <= lines.len(),
        0 <= x < nodes.len(),
        nodes[x].edges.len() == 0,
        forall|j: int|
            0 <= j < lines.len() ==> (#[trigger] lines[j]).wf() && lines[j].runs_through(nodes),
    ensures
        held(lines.take(k), x, e) == 0,
    decreases k,
{
    if k > 0 {
        lemma_nobody_holds(nodes, lines, x, e, k - 1);
        assert(lines.take(k).drop_last() =~= lines.take(k - 1));
        let line = lines[k - 1];
        assert(line.wf() && line.runs_through(nodes));
        assert(lines.take(k).last() == line);
        if line.holds(x, e) {
            let i = line.place(x);
            assert(line.node_path@[i] == x);
            assert(line.reservations@[i].edge < nodes[line.node_path@[i] as int].edges.len());
        }
    } else {
        assert(lines.take(0) =~= Seq::empty());
    }
}

impl<S: Scalar> Shared<S> {
    /// Publishes the edges of an evaluated leaf and hands its value on to be carried back,
    /// seen by the side that moved in.
    pub fn publish_eval(
        &mut self,
        event: Event<S>,
        legal_moves: &Vec<Move>,
        eval: &Evaluation<S>,
        holds_nn_credit: bool,
    ) -> (r: BackpropEvent<S>)
        requires
            old(self).wf(),
            event.node_id < old(self).arena@.len(),
            old(self).arena@[event.node_id as int].state == ExpansionState::Claimed,
        ensures
            final(self).wf(),
            is_published_at(
                old(self).arena@,
                final(self).arena@,
                event.node_id,
                paired(legal_moves@, eval.policies@),
            ),
            *final(self) == (Shared { arena: final(self).arena, ..*old(self) }),
            r.event == event,
            r.value == ValueDelta::spec_one(eval.wl.spec_negated(), eval.d, eval.plies_left),
            r.holds_nn_credit == holds_nn_credit,
    {
        let ghost nodes = self.arena@;
        let id: NodeId = event.node_id;
        assert(nodes[id as int].wf());
        let pairs: Vec<(Move, S)> = pair(legal_moves, &eval.policies);
        let node: &mut Node<S> = self.arena.node_mut(id);
        node.publish_edges(&pairs);
        proof {
            let after = self.arena@;
            assert(is_published_at(nodes, after, id, pairs@));
            assert forall|i: int| 0 <= i < after.len() implies (#[trigger] after[i]).wf() by {
                assert(nodes[i].wf());
            }
            assert forall|i: int, j: int|
                0 <= i < after.len() && 0 <= j < after[i].edges.len() implies ((
            #[trigger] after[i].edges[j]).child matches Some(c) ==> i < c < after.len()) by {
                if i != id {
                    assert(nodes[i].edges[j].child == after[i].edges[j].child);
                }
            }
            lemma_published_covered(nodes, after, id, pairs@, self.collision_waiters@);
        }
        if holds_nn_credit {
            BackpropEvent::with_nn_credit(event, eval.wl.negated(), eval.d, eval.plies_left)
        } else {
            BackpropEvent::without_nn_credit(event, eval.wl.negated(), eval.d, eval.plies_left)
        }
    }
}

/// The value of an evaluation is handed on as the other side sees it, which moved in; draws
/// and the length of the game are the same for both.
pub proof fn law_evaluation_is_seen_by_the_side_that_moved<S: Scalar>(
    value: spec_fn(S) -> real,
    round: spec_fn(real) -> real,
    shared: &mut Shared<S>,
    event: Event<S>,
    legal_moves: Vec<Move>,
    eval: Evaluation<S>,
    holds_nn_credit: bool,
    r: BackpropEvent<S>,
)
    requires
        rounds_by(value, round),
        is_even_rounding(round),
        call_ensures(
            Shared::<S>::publish_eval,
            (shared, event, &legal_moves, &eval, holds_nn_credit),
            r,
        ),
    ensures
        r.event == event,
        r.value.visits == 1,
        value(r.value.wl_sum) == -value(eval.wl),
        r.value.draw_sum == eval.d,
        r.value.m_sum == eval.plies_left,
{
    let v = value(eval.wl);
    assert(round(-v) == -round(v));
}

} // verus!
