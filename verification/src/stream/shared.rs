//! What all tasks of a search share: the tree, the counters, and the lines that wait for
//! a node that another line has claimed.
use vstd::prelude::*;

use crate::error::EnginError;
use crate::position::Move;
use crate::scalar::Scalar;
use crate::stream::event::{is_under_way, lemma_place, without_line, Event};
use crate::stream::param::SearchParams;
use crate::stream::tree::{ExpansionState, NodeArena, NodeId, NodeModel};
use crate::sums::{lemma_sum_bounds, sum_by};

verus! {

/// How far a search has come.
#[derive(Clone, Copy, Debug, PartialEq, Eq, Structural)]
pub struct Stats {
    pub completed_playouts: u64,
    pub average_depth: u64,
    pub max_depth: u64,
    /// Leaves that the network evaluated.
    pub network_evaluations: u64,
}

/// What all tasks of a search share.
#[derive(Debug)]
pub struct Shared<S> {
    pub arena: NodeArena<S>,
    pub params: SearchParams<S>,
    pub root_move_filter: Vec<Move>,
    pub stopping: bool,
    /// Lines that were begun and are not finished.
    pub outstanding: usize,
    /// Permits for evaluations that were given back and can be handed out again.
    pub returned_credits: usize,
    pub completed: u64,
    pub completed_depth: u64,
    pub max_depth: u64,
    pub network_evaluations: u64,
    pub error: Option<EnginError>,
    /// Lines that met a claimed node. Their visits stay reserved until that node is done.
    pub collision_waiters: Vec<Event<S>>,
}

/// Whether a line holds a visit on an edge, as a number.
pub open spec fn holding<S: Scalar>(x: int, e: int) -> spec_fn(Event<S>) -> int {
    |event: Event<S>|
        if event.holds(x, e) {
            1
        } else {
            0
        }
}

/// How many lines hold a visit on an edge.
pub open spec fn held<S: Scalar>(lines: Seq<Event<S>>, x: int, e: int) -> int {
    sum_by(lines, holding(x, e))
}

/// Whether lines run through a tree, and as many visits are under way on each edge as
/// they hold there.
pub open spec fn covered<S: Scalar>(nodes: Seq<NodeModel<S>>, lines: Seq<Event<S>>) -> bool {
    &&& forall|j: int|
        0 <= j < lines.len() ==> (#[trigger] lines[j]).wf() && lines[j].runs_through(nodes)
    &&& forall|x: int, e: int|
        0 <= x < nodes.len() && 0 <= e < nodes[x].edges.len() ==> #[trigger] held(lines, x, e)
            <= nodes[x].edges[e].spec_in_flight()
}

/// Whether exactly the visits that lines hold are under way.
pub open spec fn accounted<S: Scalar>(nodes: Seq<NodeModel<S>>, lines: Seq<Event<S>>) -> bool {
    &&& forall|j: int|
        0 <= j < lines.len() ==> (#[trigger] lines[j]).wf() && lines[j].runs_through(nodes)
    &&& forall|x: int, e: int|
        0 <= x < nodes.len() && 0 <= e < nodes[x].edges.len() ==> #[trigger] held(lines, x, e)
            == nodes[x].edges[e].spec_in_flight()
}

pub(crate) proof fn lemma_covered_is_under_way<S: Scalar>(
    nodes: Seq<NodeModel<S>>,
    lines: Seq<Event<S>>,
    j: int,
)
    requires
        covered(nodes, lines),
        0 <= j < lines.len(),
    ensures
        is_under_way(nodes, lines[j]),
        lines[j].wf(),
{
    let line = lines[j];
    assert(line.wf() && line.runs_through(nodes));
    assert forall|i: int| 0 <= i < line.reservations@.len() implies nodes[line.node_path@[i] as int].edges[(
    #[trigger] line.reservations@[i]).edge as int].spec_in_flight() > 0 by {
        let x = line.node_path@[i] as int;
        let e = line.reservations@[i].edge as int;
        lemma_place(line, i);
        assert(line.node_path@[i] < nodes.len());
        assert(line.holds(x, e));
        lemma_sum_bounds(lines, holding(x, e));
        assert(holding(x, e)(lines[j]) <= sum_by(lines, holding(x, e)));
        assert(held(lines, x, e) <= nodes[x].edges[e].spec_in_flight());
    }
}

/// What giving a line back does to one edge.
proof fn lemma_line_given_back<S: Scalar>(
    nodes: Seq<NodeModel<S>>,
    line: Event<S>,
    x: int,
    e: int,
)
    requires
        line.wf(),
        is_under_way(nodes, line),
        0 <= x < nodes.len(),
        0 <= e < nodes[x].edges.len(),
    ensures
        without_line(nodes, line)[x].edges.len() == nodes[x].edges.len(),
        without_line(nodes, line)[x].edges[e].spec_in_flight()
            == nodes[x].edges[e].spec_in_flight() - holding(x, e)(line),
        without_line(nodes, line)[x].edges[e].stats.visits == nodes[x].edges[e].stats.visits,
{
    if line.passes(x) && line.place(x) < line.reservations@.len() {
        let i = line.place(x);
        assert(line.node_path@[i] == x);
        assert(nodes[line.node_path@[i] as int].edges[line.reservations@[i].edge as int].spec_in_flight()
            > 0);
    }
}

/// Giving one of the lines back leaves exactly the visits of the others under way, and
/// completes none.
pub proof fn law_cancelled_line_leaves_the_others<S: Scalar>(
    nodes: Seq<NodeModel<S>>,
    lines: Seq<Event<S>>,
    j: int,
)
    requires
        covered(nodes, lines),
        0 <= j < lines.len(),
    ensures
        covered(without_line(nodes, lines[j]), lines.remove(j)),
        accounted(nodes, lines) ==> accounted(without_line(nodes, lines[j]), lines.remove(j)),
        forall|x: int, e: int|
            0 <= x < nodes.len() && 0 <= e < nodes[x].edges.len() ==> (#[trigger] without_line(
                nodes,
                lines[j],
            )[x].edges[e]).stats.visits == nodes[x].edges[e].stats.visits,
{
    let line = lines[j];
    let after = without_line(nodes, line);
    let rest = lines.remove(j);
    lemma_covered_is_under_way(nodes, lines, j);
    assert forall|x: int, e: int|
        0 <= x < after.len() && 0 <= e < after[x].edges.len() implies #[trigger] held(rest, x, e)
        <= after[x].edges[e].spec_in_flight() && (accounted(nodes, lines) ==> held(rest, x, e)
        == after[x].edges[e].spec_in_flight()) by {
        assert(nodes[x].edges.len() == after[x].edges.len());
        lemma_line_given_back(nodes, line, x, e);
        crate::sums::lemma_sum_remove(lines, j, holding(x, e));
        assert(held(lines, x, e) <= nodes[x].edges[e].spec_in_flight());
    }
    assert forall|k: int| 0 <= k < rest.len() implies (#[trigger] rest[k]).wf()
        && rest[k].runs_through(after) by {
        let other = if k < j {
            lines[k]
        } else {
            lines[k + 1]
        };
        assert(rest[k] == other);
        assert(other.wf() && other.runs_through(nodes));
        assert forall|i: int| 0 <= i < other.reservations@.len() implies (
        #[trigger] other.reservations@[i]).edge < after[other.node_path@[i] as int].edges.len() by {
            assert(other.node_path@[i] < nodes.len());
        }
    }
    assert forall|x: int, e: int|
        0 <= x < nodes.len() && 0 <= e < nodes[x].edges.len() implies (#[trigger] without_line(
        nodes,
        lines[j],
    )[x].edges[e]).stats.visits == nodes[x].edges[e].stats.visits by {
        lemma_line_given_back(nodes, line, x, e);
    }
}

/// Once all lines are finished no visit is under way anywhere.
pub proof fn law_nothing_is_left_under_way<S: Scalar>(nodes: Seq<NodeModel<S>>, x: int, e: int)
    requires
        accounted(nodes, Seq::<Event<S>>::empty()),
        0 <= x < nodes.len(),
        0 <= e < nodes[x].edges.len(),
    ensures
        nodes[x].edges[e].spec_in_flight() == 0,
{
    assert(held(Seq::<Event<S>>::empty(), x, e) == nodes[x].edges[e].spec_in_flight());
}

/// Waiting lines without one of them, whose place the last takes.
pub open spec fn swap_removed<S: Scalar>(waiters: Seq<Event<S>>, i: int) -> Seq<Event<S>> {
    waiters.update(i, waiters.last()).drop_last()
}

/// The tree once those of the waiting lines, from the `i`-th on, that end at a node are given
/// back. The last line takes the place of each that leaves, and is looked at next.
pub open spec fn waiters_given_back<S: Scalar>(
    nodes: Seq<NodeModel<S>>,
    waiters: Seq<Event<S>>,
    id: NodeId,
    i: int,
) -> Seq<NodeModel<S>>
    decreases waiters.len() - i,
{
    if i < 0 || i >= waiters.len() {
        nodes
    } else if waiters[i].node_id == id {
        waiters_given_back(without_line(nodes, waiters[i]), swap_removed(waiters, i), id, i)
    } else {
        waiters_given_back(nodes, waiters, id, i + 1)
    }
}

/// The lines that still wait once those, from the `i`-th on, that end at a node have left.
pub open spec fn other_waiters<S: Scalar>(waiters: Seq<Event<S>>, id: NodeId, i: int) -> Seq<
    Event<S>,
>
    decreases waiters.len() - i,
{
    if i < 0 || i >= waiters.len() {
        waiters
    } else if waiters[i].node_id == id {
        other_waiters(swap_removed(waiters, i), id, i)
    } else {
        other_waiters(waiters, id, i + 1)
    }
}

/// Exactly the lines that end elsewhere go on waiting.
pub proof fn law_only_other_lines_go_on_waiting<S: Scalar>(
    waiters: Seq<Event<S>>,
    id: NodeId,
    line: Event<S>,
)
    ensures
        other_waiters(waiters, id, 0).contains(line) <==> waiters.contains(line) && line.node_id
            != id,
{
    lemma_others_wait(waiters, id, line, 0);
}

proof fn lemma_others_wait<S: Scalar>(
    waiters: Seq<Event<S>>,
    id: NodeId,
    line: Event<S>,
    i: int,
)
    requires
        0 <= i,
        forall|j: int| 0 <= j < i && j < waiters.len() ==> (#[trigger] waiters[j]).node_id != id,
    ensures
        other_waiters(waiters, id, i).contains(line) <==> waiters.contains(line) && line.node_id
            != id,
    decreases waiters.len() - i,
{
    if i < waiters.len() {
        if waiters[i].node_id == id {
            let fewer = swap_removed(waiters, i);
            lemma_others_wait(fewer, id, line, i);
            if waiters.contains(line) && line.node_id != id {
                let j = choose|j: int| 0 <= j < waiters.len() && waiters[j] == line;
                if j < fewer.len() {
                    assert(fewer[j] == line);
                } else {
                    assert(fewer[i] == line);
                }
            }
            if fewer.contains(line) {
                let j = choose|j: int| 0 <= j < fewer.len() && fewer[j] == line;
                if j == i {
                    assert(waiters[waiters.len() - 1] == line);
                } else {
                    assert(waiters[j] == line);
                }
            }
        } else {
            lemma_others_wait(waiters, id, line, i + 1);
        }
    }
}

/// The order of lines does not matter to what is covered.
pub(crate) proof fn lemma_swap_removed_covered<S: Scalar>(
    nodes: Seq<NodeModel<S>>,
    waiters: Seq<Event<S>>,
    i: int,
    extra: Seq<Event<S>>,
)
    requires
        0 <= i < waiters.len(),
        covered(nodes, waiters.remove(i) + extra),
    ensures
        covered(nodes, swap_removed(waiters, i) + extra),
{
    let a = waiters.remove(i) + extra;
    let b = swap_removed(waiters, i) + extra;
    let last = waiters.len() - 1;
    if i == last {
        assert(a =~= b);
    } else {
        assert(a[last - 1] == waiters[last] && b[i] == waiters[last]);
        assert(a.remove(last - 1) =~= b.remove(i));
        assert forall|x: int, e: int|
            0 <= x < nodes.len() && 0 <= e < nodes[x].edges.len() implies #[trigger] held(b, x, e)
            <= nodes[x].edges[e].spec_in_flight() by {
            crate::sums::lemma_sum_remove(a, last - 1, holding(x, e));
            crate::sums::lemma_sum_remove(b, i, holding(x, e));
            assert(held(a, x, e) <= nodes[x].edges[e].spec_in_flight());
        }
        assert forall|j: int| 0 <= j < b.len() implies (#[trigger] b[j]).wf()
            && b[j].runs_through(nodes) by {
            if j < i {
                assert(a[j] == b[j]);
            } else if j == i {
                assert(a[last - 1] == b[j]);
            } else if j < last {
                assert(a[j - 1] == b[j]);
            } else {
                assert(a[j] == b[j]);
            }
        }
    }
}

impl<S: Scalar> Shared<S> {
    /// The tree is consistent, all waiting lines hold visits that are under way, and are
    /// counted.
    pub open spec fn wf(&self) -> bool {
        &&& self.arena.wf()
        &&& covered(self.arena@, self.collision_waiters@)
        &&& self.collision_waiters@.len() <= self.outstanding
    }

    /// A search that has not begun.
    pub fn new(arena: NodeArena<S>, params: SearchParams<S>, root_move_filter: Vec<Move>) -> (r: Self)
        requires
            arena.wf(),
        ensures
            r.wf(),
            r.arena == arena,
            r.params == params,
            r.root_move_filter == root_move_filter,
            !r.stopping && r.outstanding == 0 && r.returned_credits == 0,
            r.completed == 0 && r.completed_depth == 0 && r.max_depth == 0,
            r.network_evaluations == 0 && r.error is None,
            r.collision_waiters@.len() == 0,
    {
        let shared: Self = Shared {
            arena,
            params,
            root_move_filter,
            stopping: false,
            outstanding: 0,
            returned_credits: 0,
            completed: 0,
            completed_depth: 0,
            max_depth: 0,
            network_evaluations: 0,
            error: None,
            collision_waiters: Vec::new(),
        };
        proof {
            assert forall|x: int, e: int|
                0 <= x < arena@.len() && 0 <= e < arena@[x].edges.len() implies #[trigger] held(
                shared.collision_waiters@,
                x,
                e,
            ) <= arena@[x].edges[e].spec_in_flight() by {}
        }
        shared
    }

    /// Asks all tasks to stop.
    pub fn request_stop(&mut self)
        ensures
            *final(self) == (Shared { stopping: true, ..*old(self) }),
    {
        self.stopping = true;
    }

    pub fn is_stopping(&self) -> (r: bool)
        ensures
            r == self.stopping,
    {
        self.stopping
    }

    /// Counts a line that begins.
    pub fn start_playout(&mut self)
        requires
            old(self).outstanding < usize::MAX,
        ensures
            *final(self) == (Shared {
                outstanding: (old(self).outstanding + 1) as usize,
                ..*old(self)
            }),
            old(self).wf() ==> final(self).wf(),
    {
        self.outstanding = self.outstanding + 1;
    }

    /// Counts lines that end, completed or given back.
    pub fn finish(&mut self, n: usize, completed: bool)
        requires
            n <= old(self).outstanding,
            completed ==> old(self).completed + n <= u64::MAX,
        ensures
            *final(self) == (Shared {
                outstanding: (old(self).outstanding - n) as usize,
                completed: if completed {
                    (old(self).completed + n) as u64
                } else {
                    old(self).completed
                },
                ..*old(self)
            }),
    {
        if completed {
            self.completed = self.completed + n as u64;
        }
        self.outstanding = self.outstanding - n;
    }

    /// Gives permits for evaluations back.
    pub fn return_nn_credits(&mut self, count: usize)
        requires
            old(self).returned_credits + count <= usize::MAX,
        ensures
            *final(self) == (Shared {
                returned_credits: (old(self).returned_credits + count) as usize,
                ..*old(self)
            }),
            old(self).wf() ==> final(self).wf(),
    {
        self.returned_credits = self.returned_credits + count;
    }

    /// Takes the permits that were given back.
    pub fn take_returned_credits(&mut self) -> (r: usize)
        ensures
            r == old(self).returned_credits,
            *final(self) == (Shared { returned_credits: 0, ..*old(self) }),
            old(self).wf() ==> final(self).wf(),
    {
        let count: usize = self.returned_credits;
        self.returned_credits = 0;
        count
    }

    /// Whether the tree can take a line back besides those that wait.
    pub open spec fn can_cancel(&self, event: Event<S>) -> bool {
        &&& self.wf()
        &&& covered(self.arena@, self.collision_waiters@.push(event))
        &&& self.collision_waiters@.len() < self.outstanding
    }

    /// Ends a line and gives its visits back.
    pub fn cancel_event(&mut self, event: &Event<S>)
        requires
            old(self).can_cancel(*event),
        ensures
            final(self).wf(),
            final(self).arena@ == without_line(old(self).arena@, *event),
            *final(self) == (Shared {
                arena: final(self).arena,
                outstanding: (old(self).outstanding - 1) as usize,
                ..*old(self)
            }),
    {
        let ghost lines = self.collision_waiters@.push(*event);
        let ghost last = lines.len() - 1;
        proof {
            lemma_covered_is_under_way(self.arena@, lines, last);
            law_cancelled_line_leaves_the_others(self.arena@, lines, last);
            assert(lines.remove(last) =~= self.collision_waiters@);
        }
        event.cancel(&mut self.arena);
        self.finish(1, false);
    }

    /// Gives back all waiting lines that end at a node.
    pub fn cancel_collisions(&mut self, id: NodeId)
        requires
            old(self).wf(),
        ensures
            final(self).wf(),
            final(self).arena@ == waiters_given_back(
                old(self).arena@,
                old(self).collision_waiters@,
                id,
                0,
            ),
            final(self).collision_waiters@ == other_waiters(old(self).collision_waiters@, id, 0),
            final(self).collision_waiters@.len() <= old(self).collision_waiters@.len(),
            *final(self) == (Shared {
                arena: final(self).arena,
                collision_waiters: final(self).collision_waiters,
                outstanding: (old(self).outstanding - (old(self).collision_waiters@.len() - final(self).collision_waiters@.len())) as usize,
                ..*old(self)
            }),
    {
        let ghost nodes = self.arena@;
        let ghost all = self.collision_waiters@;
        let mut i: usize = 0;
        while i < self.collision_waiters.len()
            invariant
                nodes == old(self).arena@,
                all == old(self).collision_waiters@,
                self.wf(),
                i <= self.collision_waiters@.len() <= all.len(),
                waiters_given_back(self.arena@, self.collision_waiters@, id, i as int)
                    == waiters_given_back(nodes, all, id, 0),
                other_waiters(self.collision_waiters@, id, i as int) == other_waiters(all, id, 0),
                *self == (Shared {
                    arena: self.arena,
                    collision_waiters: self.collision_waiters,
                    outstanding: self.outstanding,
                    ..*old(self)
                }),
                self.outstanding == old(self).outstanding - (all.len()
                    - self.collision_waiters@.len()),
            decreases self.collision_waiters@.len() - i,
        {
            let ghost waiters = self.collision_waiters@;
            proof {
                lemma_covered_is_under_way(self.arena@, waiters, i as int);
                law_cancelled_line_leaves_the_others(self.arena@, waiters, i as int);
            }
            if self.collision_waiters[i].node_id == id {
                let ghost after = without_line(self.arena@, waiters[i as int]);
                proof {
                    let none = Seq::<Event<S>>::empty();
                    assert(waiters.remove(i as int) + none =~= waiters.remove(i as int));
                    lemma_swap_removed_covered(after, waiters, i as int, none);
                    assert(swap_removed(waiters, i as int) + none =~= swap_removed(
                        waiters,
                        i as int,
                    ));
                }
                let event: Event<S> = self.collision_waiters.swap_remove(i);
                event.cancel(&mut self.arena);
                self.finish(1, false);
            } else {
                i += 1;
            }
        }
    }

    /// What becomes of a line that met a claimed node: it waits while the node is still
    /// claimed and the search goes on, and else ends.
    pub fn park_collision(&mut self, event: Event<S>) -> (parked: bool)
        requires
            old(self).can_cancel(event),
        ensures
            final(self).wf(),
            parked == (!old(self).stopping && old(self).arena@[event.node_id as int].state
                == ExpansionState::Claimed),
            parked ==> final(self).collision_waiters@ == old(self).collision_waiters@.push(event)
                && *final(self) == (Shared {
                collision_waiters: final(self).collision_waiters,
                ..*old(self)
            }),
            !parked ==> final(self).arena@ == without_line(old(self).arena@, event) && *final(self)
                == (Shared {
                arena: final(self).arena,
                outstanding: (old(self).outstanding - 1) as usize,
                ..*old(self)
            }),
    {
        proof {
            let lines = self.collision_waiters@.push(event);
            assert(lines[lines.len() - 1] == event);
            assert(event.wf() && event.runs_through(self.arena@));
            assert(event.node_path@[event.node_path@.len() - 1] < self.arena@.len());
        }
        if !self.stopping && self.arena.get(event.node_id).unwrap().expansion_state()
            == ExpansionState::Claimed {
            self.collision_waiters.push(event);
            true
        } else {
            self.cancel_event(&event);
            false
        }
    }

    /// Notes why the search cannot go on, unless a reason was noted before, and stops it.
    pub fn fail(&mut self, error: EnginError)
        ensures
            *final(self) == (Shared {
                stopping: true,
                error: if old(self).error is None {
                    Some(error)
                } else {
                    old(self).error
                },
                ..*old(self)
            }),
            old(self).wf() ==> final(self).wf(),
    {
        if self.error.is_none() {
            self.error = Some(error);
        }
        self.stopping = true;
    }

    /// How far the search has come.
    pub fn stats(&self) -> (r: Stats)
        ensures
            r == (Stats {
                completed_playouts: self.completed,
                average_depth: (self.completed_depth as int / (if self.completed > 1 {
                    self.completed as int
                } else {
                    1
                })) as u64,
                max_depth: self.max_depth,
                network_evaluations: self.network_evaluations,
            }),
    {
        let playouts: u64 = if self.completed > 1 {
            self.completed
        } else {
            1
        };
        Stats {
            completed_playouts: self.completed,
            average_depth: self.completed_depth / playouts,
            max_depth: self.max_depth,
            network_evaluations: self.network_evaluations,
        }
    }
}

} // verus!
