//! One step of carrying a result up the tree: a node is served, and the walk goes on to
//! its parent.
use vstd::prelude::*;

use crate::classic::backup::{one_ply_up, result_at};
use crate::classic::bounds::{bounds_outcome, bounds_set, maybe_set_bounds, BoundsOutcome};
use crate::classic::node::Node;
use crate::classic::params::SearchParams;
use crate::classic::picking::draw_score_at;
use crate::classic::ranking::{best_child_edge, is_best_edge};
use crate::classic::tasks::{Evaluation, NodeToProcess};
use crate::classic::tree::{
    can_solidify, lemma_update_keeps_links, node_linked, solidified, NodeTree,
};
use crate::position::Move;
use crate::scalar::Scalar;

verus! {

/// What a walk up the tree brings to a node.
#[derive(Clone, Copy, Debug)]
pub struct Carry<S> {
    pub at: usize,
    pub eval: Evaluation<S>,
    /// Whether the result below may settle the node's parent.
    pub proving: bool,
    /// The visits whose values were corrected below.
    pub n_to_fix: u32,
    /// By how much they were corrected, seen by the node.
    pub v_delta: S,
    pub d_delta: S,
    pub m_delta: S,
    /// The best edge of the root so far.
    pub best_edge: Option<usize>,
}

/// What a walk up the tree reads.
pub struct Backup<S> {
    pub params: SearchParams<S>,
    pub head: usize,
    pub root_is_black: bool,
    pub filter: Seq<Move>,
    pub multivisit: u32,
}

/// What happens at one node: the tree and what was brought, and the tree and the best edge
/// of the root once the node was served.
pub struct BackupStep<S> {
    pub start: NodeTree<S>,
    pub carry: Carry<S>,
    pub solid: NodeTree<S>,
    pub best_edge: Option<usize>,
}

impl<S: Scalar> Backup<S> {
    /// What an entry of a batch brings to its node.
    pub open spec fn begin(
        self,
        tree: NodeTree<S>,
        item: NodeToProcess<S>,
        best_edge: Option<usize>,
    ) -> Carry<S> {
        let leaf = tree.nodes()[item.node_idx as int];
        Carry {
            at: item.node_idx,
            eval: item.eval,
            proving: self.params.sticky_endgames && leaf.spec_is_terminal() && leaf.n == 0,
            n_to_fix: 0,
            v_delta: S::spec_zero(),
            d_delta: S::spec_zero(),
            m_delta: S::spec_zero(),
            best_edge,
        }
    }

    /// What counts at the node: a terminal node has its own result.
    pub open spec fn counted(self, nodes: Seq<Node<S>>, carry: Carry<S>) -> Evaluation<S> {
        result_at(nodes[carry.at as int], carry.eval)
    }

    /// The node with the visits of the entry completed, and corrected where a result below
    /// became certain.
    pub open spec fn served_node(self, nodes: Seq<Node<S>>, carry: Carry<S>) -> Node<S> {
        let result = self.counted(nodes, carry);
        let node = nodes[carry.at as int].finalized(
            result.wl,
            result.d,
            result.m,
            self.multivisit,
        );
        if carry.n_to_fix > 0 && !node.spec_is_terminal() {
            node.adjusted(carry.v_delta, carry.d_delta, carry.m_delta, carry.n_to_fix)
        } else {
            node
        }
    }

    pub open spec fn served(self, nodes: Seq<Node<S>>, carry: Carry<S>) -> Seq<Node<S>> {
        nodes.update(carry.at as int, self.served_node(nodes, carry))
    }

    /// Whether the node gets all its children now.
    pub open spec fn solidifies(self, nodes: Seq<Node<S>>, carry: Carry<S>) -> bool {
        self.served_node(nodes, carry).n >= self.params.solid_tree_threshold && can_solidify(
            self.served(nodes, carry),
            carry.at as int,
        )
    }

    pub open spec fn is_best(self, best_edge: Option<usize>, tree: NodeTree<S>) -> bool {
        is_best_edge(
            best_edge,
            tree,
            self.head as int,
            draw_score_at(self.params, self.root_is_black, false),
            self.filter,
        )
    }

    /// Whether a node was served: its visits completed, and once it has many, all its
    /// children made.
    #[verifier::opaque]
    pub open spec fn is_serving(self, step: BackupStep<S>) -> bool {
        let nodes = step.start.nodes();
        &&& step.solid == (NodeTree { arena: step.solid.arena, ..step.start })
        &&& if self.solidifies(nodes, step.carry) {
            &&& solidified(
                self.served(nodes, step.carry),
                step.solid.nodes(),
                step.carry.at as int,
            )
            &&& if step.carry.at == self.head {
                self.is_best(step.best_edge, step.solid)
            } else {
                step.best_edge == step.carry.best_edge
            }
        } else {
            step.solid.nodes() == self.served(nodes, step.carry) && step.best_edge
                == step.carry.best_edge
        }
    }

    /// Whether the parent of the node may be settled.
    pub open spec fn asks(self, step: BackupStep<S>, parent: int) -> bool {
        step.carry.proving && parent != self.head && !step.solid.nodes()[parent].spec_is_terminal()
    }

    /// What the children of the parent say about it.
    pub open spec fn outcome(self, step: BackupStep<S>, parent: int) -> BoundsOutcome<S> {
        if self.asks(step, parent) {
            bounds_outcome(
                step.solid.nodes(),
                parent,
                self.counted(step.start.nodes(), step.carry).m,
            )
        } else {
            BoundsOutcome::Unknown
        }
    }

    /// Whether the best edge of the root is sought again: its child below was settled, or is
    /// another one that has caught up with the best.
    pub open spec fn reconsiders(
        self,
        step: BackupStep<S>,
        nodes: Seq<Node<S>>,
        parent: int,
    ) -> bool {
        let at = step.carry.at as int;
        let best_child = match step.best_edge {
            Some(e) => nodes[self.head as int].spec_child(e as int),
            None => None,
        };
        parent == self.head && ((step.carry.proving && nodes[at].spec_is_terminal()) || (best_child
            != Some(step.carry.at) && (best_child matches Some(c) ==> nodes[c as int].n
            <= nodes[at].n)))
    }

    /// Whether the walk went on from a served node to its parent.
    #[verifier::opaque]
    pub open spec fn is_climbing(
        self,
        step: BackupStep<S>,
        start: NodeTree<S>,
        carry: Carry<S>,
    ) -> bool {
        let solid = step.solid.nodes();
        let parent = solid[step.carry.at as int].parent->Some_0 as int;
        let result = self.counted(step.start.nodes(), step.carry);
        let outcome = self.outcome(step, parent);
        &&& solid[step.carry.at as int].parent is Some
        &&& start == (NodeTree { arena: start.arena, ..step.solid })
        &&& if self.asks(step, parent) {
            bounds_set(solid, start.nodes(), parent, result.m)
        } else {
            start.nodes() == solid
        }
        &&& carry.at == parent
        &&& carry.eval == one_ply_up(result)
        &&& carry.proving == !(outcome is Unknown)
        &&& match outcome {
            BoundsOutcome::Proven { n_to_fix, v_delta, d_delta, m_delta } => {
                &&& carry.n_to_fix == n_to_fix
                &&& carry.v_delta == v_delta.spec_negated()
                &&& carry.d_delta == d_delta
                &&& carry.m_delta == m_delta
            },
            _ => {
                &&& carry.n_to_fix == (if solid[parent].spec_is_terminal() {
                    0
                } else {
                    step.carry.n_to_fix
                })
                &&& carry.v_delta == step.carry.v_delta.spec_negated()
                &&& carry.d_delta == step.carry.d_delta
                &&& carry.m_delta == step.carry.m_delta
            },
        }
        &&& if self.reconsiders(step, start.nodes(), parent) {
            self.is_best(carry.best_edge, start)
        } else {
            carry.best_edge == step.best_edge
        }
    }

    /// Whether these steps lead from the node of an entry to where the walk has come.
    #[verifier::opaque]
    pub open spec fn has_come(
        self,
        before: NodeTree<S>,
        item: NodeToProcess<S>,
        best_edge: Option<usize>,
        steps: Seq<BackupStep<S>>,
        start: NodeTree<S>,
        carry: Carry<S>,
    ) -> bool {
        &&& forall|k: int|
            0 <= k < steps.len() ==> self.is_serving(#[trigger] steps[k]) && steps[k].carry.at
                != self.head
        &&& forall|k: int|
            0 < k < steps.len() ==> self.is_climbing(
                steps[k - 1],
                (#[trigger] steps[k]).start,
                steps[k].carry,
            )
        &&& if steps.len() == 0 {
            start == before && carry == self.begin(before, item, best_edge)
        } else {
            &&& steps[0].start == before
            &&& steps[0].carry == self.begin(before, item, best_edge)
            &&& self.is_climbing(steps.last(), start, carry)
        }
    }

    /// Whether the result of an entry was carried up to the head.
    pub open spec fn is_carried_up(
        self,
        before: NodeTree<S>,
        item: NodeToProcess<S>,
        best_edge: Option<usize>,
        after: NodeTree<S>,
        best_after: Option<usize>,
    ) -> bool {
        exists|steps: Seq<BackupStep<S>>, last: BackupStep<S>|
            {
                &&& #[trigger] self.has_come(
                    before,
                    item,
                    best_edge,
                    steps,
                    last.start,
                    last.carry,
                )
                &&& last.carry.at == self.head
                &&& #[trigger] self.is_serving(last)
                &&& last.solid == after
                &&& last.best_edge == best_after
            }
    }

    pub proof fn lemma_walk_begins(
        self,
        before: NodeTree<S>,
        item: NodeToProcess<S>,
        best_edge: Option<usize>,
    )
        ensures
            self.has_come(
                before,
                item,
                best_edge,
                Seq::empty(),
                before,
                self.begin(before, item, best_edge),
            ),
    {
        reveal(Backup::has_come);
    }

    pub proof fn lemma_walk_goes_on(
        self,
        before: NodeTree<S>,
        item: NodeToProcess<S>,
        best_edge: Option<usize>,
        steps: Seq<BackupStep<S>>,
        step: BackupStep<S>,
        start: NodeTree<S>,
        carry: Carry<S>,
    )
        requires
            self.has_come(before, item, best_edge, steps, step.start, step.carry),
            self.is_serving(step),
            step.carry.at != self.head,
            self.is_climbing(step, start, carry),
        ensures
            self.has_come(before, item, best_edge, steps.push(step), start, carry),
    {
        reveal(Backup::has_come);
        let longer = steps.push(step);
        assert forall|k: int| 0 < k < longer.len() implies self.is_climbing(
            longer[k - 1],
            (#[trigger] longer[k]).start,
            longer[k].carry,
        ) by {
            if k < steps.len() {
                assert(longer[k] == steps[k]);
            }
        }
        assert(longer.last() == step);
    }
}

/// Serves one node: completes the visits of the entry there, and makes all its children
/// once it has many visits. Returns what counted, and the best edge of the root.
pub(crate) fn serve_node<S: Scalar>(
    tree: &mut NodeTree<S>,
    params: &SearchParams<S>,
    carry: &Carry<S>,
    head: usize,
    root_is_black: bool,
    root_move_filter: &Vec<Move>,
    multivisit: u32,
    Ghost(backup): Ghost<Backup<S>>,
) -> (r: (Evaluation<S>, Option<usize>))
    requires
        old(tree).wf(),
        carry.at < old(tree).nodes().len(),
        head < old(tree).nodes().len(),
        old(tree).nodes().len() + u8::MAX < usize::MAX,
        old(tree).nodes()[carry.at as int].n + multivisit <= u32::MAX,
        old(tree).nodes()[carry.at as int].n_in_flight >= multivisit,
        backup == (Backup {
            params: *params,
            head,
            root_is_black,
            filter: root_move_filter@,
            multivisit,
        }),
    ensures
        final(tree).wf(),
        *final(tree) == (NodeTree { arena: final(tree).arena, ..*old(tree) }),
        r.0 == backup.counted(old(tree).nodes(), *carry),
        backup.is_serving(
            BackupStep {
                start: *old(tree),
                carry: *carry,
                solid: *final(tree),
                best_edge: r.1,
            },
        ),
        ({
            let served = backup.served(old(tree).nodes(), *carry);
            final(tree).nodes() == served || solidified(
                served,
                final(tree).nodes(),
                carry.at as int,
            )
        }),
        crate::classic::tree::well_linked(backup.served(old(tree).nodes(), *carry)),
        r.1 == carry.best_edge || (r.1 matches Some(e) ==> e < final(tree).nodes()[head as int].edges@.len()),
{
    let ghost start = tree.nodes();
    let at: usize = carry.at;
    let mut eval: Evaluation<S> = carry.eval;
    if tree.node(at).is_terminal() {
        eval = Evaluation { wl: tree.node(at).wl(), d: tree.node(at).d(), m: tree.node(at).m() };
    }
    tree.arena.nodes[at].finalize_score_update(eval.wl, eval.d, eval.m, multivisit);
    if carry.n_to_fix > 0 && !tree.node(at).is_terminal() {
        tree.arena.nodes[at].adjust_for_terminal(
            carry.v_delta,
            carry.d_delta,
            carry.m_delta,
            carry.n_to_fix,
        );
    }
    proof {
        assert(tree.nodes() =~= backup.served(start, *carry));
        lemma_update_keeps_links(start, at as int, tree.nodes()[at as int]);
    }
    let mut best_edge: Option<usize> = carry.best_edge;
    if tree.node(at).n() >= params.solid_tree_threshold {
        if tree.make_solid(at) && at == head {
            best_edge =
            best_child_edge(tree, head, params, root_is_black, false, root_move_filter);
        }
    }
    proof {
        reveal(Backup::is_serving);
    }
    (eval, best_edge)
}

/// Goes on from a served node to its parent, which may be settled. Returns what is brought
/// there.
pub(crate) fn climb<S: Scalar>(
    tree: &mut NodeTree<S>,
    params: &SearchParams<S>,
    carry: &Carry<S>,
    counted: Evaluation<S>,
    best_edge: Option<usize>,
    parent: usize,
    head: usize,
    root_is_black: bool,
    root_move_filter: &Vec<Move>,
    Ghost(backup): Ghost<Backup<S>>,
    Ghost(start): Ghost<NodeTree<S>>,
) -> (r: Carry<S>)
    requires
        old(tree).wf(),
        carry.at < old(tree).nodes().len(),
        head < old(tree).nodes().len(),
        old(tree).nodes()[carry.at as int].parent == Some(parent),
        carry.proving && parent != head ==> (old(tree).nodes()[parent as int].parent matches Some(p)
            ==> old(tree).nodes()[parent as int].edge_index
            < old(tree).nodes()[p as int].edges@.len()),
        counted == backup.counted(start.nodes(), *carry),
        backup.params == *params,
        backup.head == head,
        backup.root_is_black == root_is_black,
        backup.filter == root_move_filter@,
    ensures
        final(tree).wf(),
        *final(tree) == (NodeTree { arena: final(tree).arena, ..*old(tree) }),
        backup.is_climbing(
            BackupStep { start, carry: *carry, solid: *old(tree), best_edge },
            *final(tree),
            r,
        ),
        r.at == parent,
        r.eval == one_ply_up(counted),
        !carry.proving ==> !r.proving && final(tree).nodes() == old(tree).nodes(),
        !carry.proving && carry.n_to_fix == 0 ==> r.n_to_fix == 0,
        final(tree).nodes() == old(tree).nodes() || (parent != head && bounds_set(
            old(tree).nodes(),
            final(tree).nodes(),
            parent as int,
            counted.m,
        )),
        r.best_edge == best_edge || (r.best_edge matches Some(e) ==> e < final(tree).nodes()[head as int].edges@.len()),
{
    let ghost solid = *tree;
    let ghost step = BackupStep { start, carry: *carry, solid, best_edge };
    proof {
        assert(node_linked(tree.nodes(), carry.at as int));
    }
    let at: usize = carry.at;
    let mut next: Carry<S> = *carry;
    next.at = parent;
    next.eval = Evaluation {
        wl: counted.wl.negated(),
        d: counted.d,
        m: counted.m.plus(S::one()),
    };
    next.best_edge = best_edge;
    next.proving = false;
    if tree.node(parent).is_terminal() {
        next.n_to_fix = 0;
    }
    if carry.proving && parent != head && !tree.node(parent).is_terminal() {
        match maybe_set_bounds(tree, parent, counted.m) {
            BoundsOutcome::Unknown => {},
            BoundsOutcome::Narrowed => {
                next.proving = true;
            },
            BoundsOutcome::Proven { n_to_fix, v_delta, d_delta, m_delta } => {
                next.proving = true;
                next.n_to_fix = n_to_fix;
                next.v_delta = v_delta;
                next.d_delta = d_delta;
                next.m_delta = m_delta;
            },
        }
    }
    next.v_delta = next.v_delta.negated();
    if parent == head {
        let cached: Option<usize> = match best_edge {
            Some(edge) => tree.node(head).child(edge),
            None => None,
        };
        proof {
            assert(node_linked(tree.nodes(), head as int));
        }
        let has_caught_up: bool = match cached {
            Some(c) => {
                assert(tree.nodes()[head as int].children@[best_edge->Some_0 as int] == Some(c));
                c != at && tree.node(c).n() <= tree.node(at).n()
            },
            None => true,
        };
        if (carry.proving && tree.node(at).is_terminal()) || has_caught_up {
            next.best_edge =
            best_child_edge(tree, head, params, root_is_black, false, root_move_filter);
        }
    }
    proof {
        reveal(Backup::is_climbing);
        assert(parent as int == solid.nodes()[at as int].parent->Some_0 as int);
    }
    next
}

} // verus!
