//! The arena that owns the nodes, and the tree that a game moves through.
use vstd::prelude::*;

use crate::classic::node::{prior_bits, reopened_n, Edge, EdgeAndNode, Node, Terminal};
use crate::position::{GameResult, Move, Position};
use crate::scalar::Scalar;

verus! {

/// The links of one node agree with those of its parent and its children. A
/// child always stands behind its parent in the arena.
pub open spec fn node_linked<S>(nodes: Seq<Node<S>>, i: int) -> bool {
    &&& nodes[i].children@.len() == nodes[i].edges@.len()
    &&& nodes[i].edges@.len() <= u8::MAX
    &&& (nodes[i].parent matches Some(p) ==> p < i)
    &&& forall|e: int|
        0 <= e < nodes[i].children@.len() ==> (#[trigger] nodes[i].children@[e] matches Some(c)
            ==> i < c < nodes.len() && nodes[c as int].parent == Some(i as usize)
            && nodes[c as int].edge_index == e)
}

/// The links of all nodes agree.
pub open spec fn well_linked<S>(nodes: Seq<Node<S>>) -> bool {
    &&& nodes.len() <= usize::MAX
    &&& forall|i: int| 0 <= i < nodes.len() ==> #[trigger] node_linked(nodes, i)
}

/// Two nodes have the same place, edges and children.
pub open spec fn same_links<S>(a: Node<S>, b: Node<S>) -> bool {
    &&& a.parent == b.parent
    &&& a.edge_index == b.edge_index
    &&& a.edges@.len() == b.edges@.len()
    &&& a.children@ == b.children@
}

/// Replacing a node by one with the same links keeps all links in agreement.
pub proof fn lemma_update_keeps_links<S>(nodes: Seq<Node<S>>, i: int, node: Node<S>)
    requires
        well_linked(nodes),
        0 <= i < nodes.len(),
        same_links(nodes[i], node),
    ensures
        well_linked(nodes.update(i, node)),
{
    let after = nodes.update(i, node);
    assert forall|j: int| 0 <= j < after.len() implies #[trigger] node_linked(after, j) by {
        assert(node_linked(nodes, j));
        assert forall|e: int| 0 <= e < after[j].children@.len() implies (
        #[trigger] after[j].children@[e] matches Some(c) ==> j < c < after.len()
            && after[c as int].parent == Some(j as usize) && after[c as int].edge_index == e) by {
            assert(nodes[j].children@[e] == after[j].children@[e]);
        }
    }
}

/// Whether node `a` is node `b` or one of its ancestors.
pub open spec fn is_ancestor<S>(nodes: Seq<Node<S>>, a: int, b: int) -> bool
    decreases b,
{
    a == b || (match nodes[b].parent {
        Some(p) => p < b && is_ancestor(nodes, a, p as int),
        None => false,
    })
}

/// Ancestry depends on the parent links alone.
pub proof fn lemma_ancestor_stable<S>(before: Seq<Node<S>>, after: Seq<Node<S>>, a: int, b: int)
    requires
        0 <= b,
        forall|j: int| 0 <= j <= b ==> (#[trigger] before[j]).parent == after[j].parent,
    ensures
        is_ancestor(before, a, b) == is_ancestor(after, a, b),
    decreases b,
{
    assert(before[b].parent == after[b].parent);
    match before[b].parent {
        Some(p) => {
            if p < b {
                lemma_ancestor_stable(before, after, a, p as int);
            }
        },
        None => {},
    }
}

/// An ancestor never stands behind its descendant.
pub proof fn lemma_ancestor_below<S>(nodes: Seq<Node<S>>, a: int, b: int)
    requires
        is_ancestor(nodes, a, b),
    ensures
        a <= b,
    decreases b,
{
    if a != b {
        lemma_ancestor_below(nodes, a, nodes[b].parent.unwrap() as int);
    }
}

/// `after` is `before` with a fresh child behind edge `e` of node `p`, as the
/// last node.
pub open spec fn spawned<S: Scalar>(
    before: Seq<Node<S>>,
    after: Seq<Node<S>>,
    p: int,
    e: int,
) -> bool {
    &&& after.len() == before.len() + 1
    &&& forall|j: int| 0 <= j < before.len() && j != p ==> #[trigger] after[j] == before[j]
    &&& after[p] == (Node { children: after[p].children, ..before[p] })
    &&& after[p].children@ == before[p].children@.update(e, Some(before.len() as usize))
    &&& after[before.len() as int].is_fresh(Some(p as usize), e as u16)
}

/// The prior of each edge among the first `k` whose child has been visited,
/// added up in order.
pub open spec fn visited_prior<S: Scalar>(nodes: Seq<Node<S>>, i: int, k: int) -> S
    decreases k,
{
    if k <= 0 {
        S::spec_zero()
    } else {
        let rest = visited_prior(nodes, i, k - 1);
        match nodes[i].children@[k - 1] {
            Some(c) => if nodes[c as int].n > 0 {
                rest.spec_plus(S::spec_from_bits(prior_bits(nodes[i].edges@[k - 1].p)))
            } else {
                rest
            },
            None => rest,
        }
    }
}

/// Visits, value and draw of the children behind the first `k` edges.
pub open spec fn child_stats<S>(nodes: Seq<Node<S>>, i: int, k: int) -> Seq<(u32, S, S)>
    decreases k,
{
    if k <= 0 {
        Seq::empty()
    } else {
        let rest = child_stats(nodes, i, k - 1);
        match nodes[i].children@[k - 1] {
            Some(c) => rest.push((nodes[c as int].n, nodes[c as int].wl, nodes[c as int].d)),
            None => rest,
        }
    }
}

/// Visits, value and draw of all children of a node.
pub open spec fn all_child_stats<S>(nodes: Seq<Node<S>>, i: int) -> Seq<(u32, S, S)> {
    child_stats(nodes, i, nodes[i].children@.len() as int)
}

/// Visits under way at the children behind the first `k` edges.
pub open spec fn children_in_flight<S>(nodes: Seq<Node<S>>, i: int, k: int) -> int
    decreases k,
{
    if k <= 0 {
        0
    } else {
        children_in_flight(nodes, i, k - 1) + (match nodes[i].children@[k - 1] {
            Some(c) => nodes[c as int].n_in_flight as int,
            None => 0,
        })
    }
}

/// The child behind an edge is a leaf, or terminal, with a visit under way.
pub open spec fn is_busy_leaf<S: Scalar>(nodes: Seq<Node<S>>, i: int, e: int) -> bool {
    match nodes[i].children@[e] {
        Some(c) => (nodes[c as int].n <= 1 || nodes[c as int].spec_is_terminal())
            && nodes[c as int].n_in_flight > 0,
        None => false,
    }
}

/// All children of a node may be created: it is an ordinary node with edges, no
/// leaf below it is being visited, and every visit under way has reached a child.
pub open spec fn can_solidify<S: Scalar>(nodes: Seq<Node<S>>, i: int) -> bool {
    &&& !nodes[i].solid_children
    &&& nodes[i].edges@.len() > 0
    &&& !nodes[i].spec_is_terminal()
    &&& forall|e: int| 0 <= e < nodes[i].children@.len() ==> !#[trigger] is_busy_leaf(nodes, i, e)
    &&& children_in_flight(nodes, i, nodes[i].children@.len() as int) == nodes[i].n_in_flight
}

/// `after` is `before` with a child behind every edge of node `i`; the new ones
/// are fresh.
pub open spec fn solidified<S: Scalar>(
    before: Seq<Node<S>>,
    after: Seq<Node<S>>,
    i: int,
) -> bool {
    &&& before.len() <= after.len() <= before.len() + before[i].children@.len()
    &&& forall|j: int| 0 <= j < before.len() && j != i ==> #[trigger] after[j] == before[j]
    &&& forall|j: int|
        before.len() <= j < after.len() ==> (#[trigger] after[j]).is_fresh(
            Some(i as usize),
            after[j].edge_index,
        )
    &&& after[i] == (Node { children: after[i].children, solid_children: true, ..before[i] })
    &&& after[i].children@.len() == before[i].children@.len()
    &&& forall|e: int|
        0 <= e < before[i].children@.len() ==> match #[trigger] before[i].children@[e] {
            Some(c) => after[i].children@[e] == Some(c),
            None => after[i].children@[e] matches Some(c) && before.len() <= c < after.len()
                && after[c as int].is_fresh(Some(i as usize), e as u16),
        }
}

/// The index of the first edge of a node with a move, if there is one.
pub open spec fn first_edge<S>(node: Node<S>, mv: Move, from: int) -> Option<int>
    decreases node.edges@.len() - from,
{
    if from < 0 || from >= node.edges@.len() {
        None
    } else if node.edges@[from].mv == mv {
        Some(from)
    } else {
        first_edge(node, mv, from + 1)
    }
}

/// The nodes of a search tree, which refer to each other by index.
#[derive(Debug)]
pub struct NodeArena<S> {
    pub nodes: Vec<Node<S>>,
}

impl<S: Scalar> NodeArena<S> {
    /// An arena without nodes.
    pub fn new() -> (r: Self)
        ensures
            r.nodes@.len() == 0,
    {
        NodeArena { nodes: Vec::new() }
    }

    /// Adds a node and returns its index.
    pub fn allocate(&mut self, node: Node<S>) -> (r: usize)
        ensures
            r == old(self).nodes@.len(),
            final(self).nodes@ == old(self).nodes@.push(node),
    {
        let index: usize = self.nodes.len();
        self.nodes.push(node);
        index
    }

    pub fn get(&self, idx: usize) -> (r: Option<&Node<S>>)
        ensures
            r == (if idx < self.nodes@.len() {
                Some(&self.nodes@[idx as int])
            } else {
                None
            }),
    {
        if idx < self.nodes.len() {
            Some(&self.nodes[idx])
        } else {
            None
        }
    }

    /// Gives access to a node.
    pub fn get_mut(&mut self, idx: usize) -> (r: Option<&mut Node<S>>)
        ensures
            r is Some == (idx < old(self).nodes@.len()),
            r is None ==> final(self).nodes@ == old(self).nodes@,
            r matches Some(node) ==> *node == old(self).nodes@[idx as int] && final(self).nodes@
                == old(self).nodes@.update(idx as int, *final(node)),
    {
        if idx < self.nodes.len() {
            Some(&mut self.nodes[idx])
        } else {
            None
        }
    }

    /// Returns the child behind an edge, which it creates where there is none.
    pub fn spawn_child(&mut self, parent_idx: usize, edge_idx: usize) -> (r: usize)
        requires
            well_linked(old(self).nodes@),
            parent_idx < old(self).nodes@.len() < usize::MAX,
            edge_idx < old(self).nodes@[parent_idx as int].edges@.len(),
        ensures
            well_linked(final(self).nodes@),
            match old(self).nodes@[parent_idx as int].children@[edge_idx as int] {
                Some(c) => r == c && final(self).nodes@ == old(self).nodes@,
                None => r == old(self).nodes@.len() && spawned(
                    old(self).nodes@,
                    final(self).nodes@,
                    parent_idx as int,
                    edge_idx as int,
                ),
            },
    {
        proof {
            assert(node_linked(self.nodes@, parent_idx as int));
        }
        match self.nodes[parent_idx].children[edge_idx] {
            Some(child) => child,
            None => {
                let ghost before = self.nodes@;
                let child_idx: usize = self.allocate(Node::new(Some(parent_idx), edge_idx as u16));
                self.nodes[parent_idx].children[edge_idx] = Some(child_idx);
                proof {
                    let after = self.nodes@;
                    assert(spawned(before, after, parent_idx as int, edge_idx as int));
                    lemma_spawned_keeps_links(before, after, parent_idx as int, edge_idx as int);
                }
                child_idx
            },
        }
    }

    /// The priors of the edges whose child has been visited, added up.
    pub fn visited_policy(&self, idx: usize) -> (r: S)
        requires
            well_linked(self.nodes@),
            idx < self.nodes@.len(),
        ensures
            r == visited_prior(
                self.nodes@,
                idx as int,
                self.nodes@[idx as int].children@.len() as int,
            ),
    {
        let mut sum: S = S::zero();
        let mut i: usize = 0;
        proof {
            assert(node_linked(self.nodes@, idx as int));
        }
        while i < self.nodes[idx].children.len()
            invariant
                well_linked(self.nodes@),
                idx < self.nodes@.len(),
                node_linked(self.nodes@, idx as int),
                i <= self.nodes@[idx as int].children@.len(),
                sum == visited_prior(self.nodes@, idx as int, i as int),
            decreases self.nodes@[idx as int].children@.len() - i,
        {
            match self.nodes[idx].children[i] {
                Some(c) => {
                    assert(self.nodes@[idx as int].children@[i as int] == Some(c));
                    if self.nodes[c].n > 0 {
                        sum = sum.plus(S::from_bits(self.nodes[idx].edges[i].get_p()));
                    }
                },
                None => {},
            }
            i += 1;
        }
        sum
    }
}

impl<S: Scalar> Default for NodeArena<S> {
    fn default() -> (r: Self)
        ensures
            r.nodes@.len() == 0,
    {
        NodeArena::new()
    }
}

pub proof fn lemma_spawned_keeps_links<S: Scalar>(
    before: Seq<Node<S>>,
    after: Seq<Node<S>>,
    p: int,
    e: int,
)
    requires
        well_linked(before),
        0 <= p < before.len() < usize::MAX,
        0 <= e < before[p].edges@.len(),
        before[p].children@[e] is None,
        spawned(before, after, p, e),
    ensures
        well_linked(after),
{
    let c = before.len() as int;
    assert(node_linked(before, p));
    assert forall|j: int| 0 <= j < after.len() implies #[trigger] node_linked(after, j) by {
        if j < c {
            assert(node_linked(before, j));
            assert forall|f: int| 0 <= f < after[j].children@.len() implies (
            #[trigger] after[j].children@[f] matches Some(k) ==> j < k < after.len()
                && after[k as int].parent == Some(j as usize) && after[k as int].edge_index
                == f) by {
                if j == p && f == e {
                } else {
                    assert(before[j].children@[f] == after[j].children@[f]);
                }
            }
        }
    }
}

/// A search tree: the nodes, the root of the game, the node that the game has
/// reached and the positions on the way there.
#[derive(Debug)]
pub struct NodeTree<S> {
    pub arena: NodeArena<S>,
    pub gamebegin: Option<usize>,
    pub current_head: Option<usize>,
    pub history: Vec<Position>,
}

impl<S: Scalar> NodeTree<S> {
    /// All nodes, by index.
    pub open spec fn nodes(self) -> Seq<Node<S>> {
        self.arena.nodes@
    }

    /// The links agree, and root and head are nodes of the tree.
    pub open spec fn wf(self) -> bool {
        &&& well_linked(self.nodes())
        &&& self.gamebegin is Some == self.current_head is Some
        &&& (self.gamebegin matches Some(g) ==> g < self.nodes().len() && self.nodes()[g as int].parent is None)
        &&& (self.current_head matches Some(h) ==> h < self.nodes().len())
    }

    /// The head, in a tree that has one.
    pub open spec fn head(self) -> int {
        self.current_head->Some_0 as int
    }

    /// A tree without nodes.
    pub fn new() -> (r: Self)
        ensures
            r.wf(),
            r.nodes().len() == 0,
            r.gamebegin is None,
            r.current_head is None,
            r.history@.len() == 0,
    {
        NodeTree {
            arena: NodeArena::new(),
            gamebegin: None,
            current_head: None,
            history: Vec::new(),
        }
    }

    /// The node that the game has reached.
    pub fn current_head(&self) -> (r: usize)
        requires
            self.current_head is Some,
        ensures
            r == self.head(),
    {
        self.current_head.unwrap()
    }

    pub fn history(&self) -> (r: &Vec<Position>)
        ensures
            r@ == self.history@,
    {
        &self.history
    }

    pub fn arena(&self) -> (r: &NodeArena<S>)
        ensures
            *r == self.arena,
    {
        &self.arena
    }

    /// Gives access to the nodes.
    pub fn arena_mut(&mut self) -> (r: &mut NodeArena<S>)
        ensures
            *r == old(self).arena,
            *final(self) == (NodeTree { arena: *final(r), ..*old(self) }),
    {
        &mut self.arena
    }

    pub fn node(&self, idx: usize) -> (r: &Node<S>)
        requires
            idx < self.nodes().len(),
        ensures
            *r == self.nodes()[idx as int],
    {
        &self.arena.nodes[idx]
    }

    /// Gives access to one node.
    pub fn node_mut(&mut self, idx: usize) -> (r: &mut Node<S>)
        requires
            idx < old(self).nodes().len(),
        ensures
            *r == old(self).nodes()[idx as int],
            final(self).nodes() == old(self).nodes().update(idx as int, *final(r)),
            *final(self) == (NodeTree { arena: final(self).arena, ..*old(self) }),
    {
        &mut self.arena.nodes[idx]
    }

    /// An edge together with the node behind it.
    pub fn edge_and_node(&self, node_idx: usize, edge_idx: usize) -> (r: EdgeAndNode<'_, S>)
        requires
            well_linked(self.nodes()),
            node_idx < self.nodes().len(),
            edge_idx < self.nodes()[node_idx as int].edges@.len(),
        ensures
            r.edge == self.nodes()[node_idx as int].edges@[edge_idx as int],
            r.node == (match self.nodes()[node_idx as int].children@[edge_idx as int] {
                Some(c) => Some(&self.nodes()[c as int]),
                None => None,
            }),
    {
        proof {
            assert(node_linked(self.nodes(), node_idx as int));
        }
        let edge: Edge = self.node(node_idx).edge(edge_idx);
        match self.node(node_idx).child(edge_idx) {
            Some(c) => {
                assert(self.nodes()[node_idx as int].children@[edge_idx as int] == Some(c));
                EdgeAndNode::new(edge, Some(self.node(c)))
            },
            None => EdgeAndNode::new(edge, None),
        }
    }

    /// The tree after a node became terminal: a lost node also loses the prior of
    /// the edge that leads to it.
    pub open spec fn after_make_terminal(
        before: Seq<Node<S>>,
        after: Seq<Node<S>>,
        i: int,
        result: GameResult,
        plies_left: S,
        terminal: Terminal,
    ) -> bool {
        &&& after.len() == before.len()
        &&& after[i] == before[i].made_terminal(result, plies_left, terminal)
        &&& forall|j: int|
            0 <= j < before.len() && j != i && !(result == GameResult::BlackWon && before[i].parent
                == Some(j as usize)) ==> #[trigger] after[j] == before[j]
        &&& (result == GameResult::BlackWon && before[i].parent is Some) ==> {
            let p = before[i].parent->Some_0 as int;
            let e = before[i].edge_index as int;
            &&& after[p] == (Node { edges: after[p].edges, ..before[p] })
            &&& after[p].edges@ == before[p].edges@.update(
                e,
                Edge { mv: before[p].edges@[e].mv, p: 0 },
            )
        }
    }

    /// Makes a node terminal.
    pub fn make_terminal(
        &mut self,
        node_idx: usize,
        result: GameResult,
        plies_left: S,
        terminal: Terminal,
    )
        requires
            old(self).wf(),
            node_idx < old(self).nodes().len(),
            old(self).nodes()[node_idx as int].parent matches Some(p)
                ==> old(self).nodes()[node_idx as int].edge_index
                < old(self).nodes()[p as int].edges@.len(),
        ensures
            final(self).wf(),
            Self::after_make_terminal(
                old(self).nodes(),
                final(self).nodes(),
                node_idx as int,
                result,
                plies_left,
                terminal,
            ),
            *final(self) == (NodeTree { arena: final(self).arena, ..*old(self) }),
    {
        let ghost before = self.nodes();
        proof {
            assert(node_linked(before, node_idx as int));
        }
        let parent: Option<usize> = self.node(node_idx).parent;
        let edge_index: usize = self.node(node_idx).edge_index as usize;
        self.arena.nodes[node_idx].make_terminal(result, plies_left, terminal);
        proof {
            lemma_update_keeps_links(
                before,
                node_idx as int,
                before[node_idx as int].made_terminal(result, plies_left, terminal),
            );
        }
        if result == GameResult::BlackWon {
            match parent {
                Some(p) => {
                    let ghost middle = self.nodes();
                    self.arena.nodes[p].edges[edge_index].set_p(0);
                    proof {
                        assert(self.nodes() =~= middle.update(p as int, self.nodes()[p as int]));
                        lemma_update_keeps_links(middle, p as int, self.nodes()[p as int]);
                    }
                },
                None => {},
            }
        }
    }

    /// Makes a terminal node an ordinary one again.
    pub fn make_not_terminal(&mut self, node_idx: usize)
        requires
            old(self).wf(),
            node_idx < old(self).nodes().len(),
            reopened_n(all_child_stats(old(self).nodes(), node_idx as int)) <= u32::MAX,
        ensures
            final(self).wf(),
            final(self).nodes() == old(self).nodes().update(
                node_idx as int,
                old(self).nodes()[node_idx as int].made_not_terminal(
                    all_child_stats(old(self).nodes(), node_idx as int),
                ),
            ),
            *final(self) == (NodeTree { arena: final(self).arena, ..*old(self) }),
    {
        let mut stats: Vec<(u32, S, S)> = Vec::new();
        let mut e: usize = 0;
        proof {
            assert(node_linked(self.nodes(), node_idx as int));
        }
        while e < self.arena.nodes[node_idx].children.len()
            invariant
                *self == *old(self),
                self.wf(),
                node_idx < self.nodes().len(),
                node_linked(self.nodes(), node_idx as int),
                e <= self.nodes()[node_idx as int].children@.len(),
                stats@ == child_stats(self.nodes(), node_idx as int, e as int),
            decreases self.nodes()[node_idx as int].children@.len() - e,
        {
            match self.arena.nodes[node_idx].children[e] {
                Some(c) => {
                    assert(self.nodes()[node_idx as int].children@[e as int] == Some(c));
                    let child: &Node<S> = self.node(c);
                    stats.push((child.n, child.wl, child.d));
                },
                None => {},
            }
            e += 1;
        }
        let ghost before = self.nodes();
        self.arena.nodes[node_idx].make_not_terminal(&stats);
        proof {
            lemma_update_keeps_links(before, node_idx as int, self.nodes()[node_idx as int]);
        }
    }

    /// Creates every missing child of a node, where that is safe, and returns
    /// whether it was.
    pub fn make_solid(&mut self, node_idx: usize) -> (r: bool)
        requires
            old(self).wf(),
            node_idx < old(self).nodes().len(),
            old(self).nodes().len() + u8::MAX < usize::MAX,
        ensures
            final(self).wf(),
            r == can_solidify(old(self).nodes(), node_idx as int),
            !r ==> final(self).nodes() == old(self).nodes(),
            r ==> solidified(old(self).nodes(), final(self).nodes(), node_idx as int),
            *final(self) == (NodeTree { arena: final(self).arena, ..*old(self) }),
    {
        let ghost before = self.nodes();
        let ghost i = node_idx as int;
        proof {
            assert(node_linked(before, i));
        }
        if self.node(node_idx).has_solid_children() || self.node(node_idx).num_edges() == 0
            || self.node(node_idx).is_terminal() {
            return false;
        }
        let count: usize = self.node(node_idx).num_edges();
        let mut total: u64 = 0;
        let mut e: usize = 0;
        while e < count
            invariant
                *self == *old(self),
                self.nodes() == before,
                i == node_idx,
                self.wf(),
                node_idx < before.len(),
                node_linked(before, i),
                count == before[i].children@.len(),
                count <= u8::MAX,
                e <= count,
                total == children_in_flight(before, i, e as int),
                total <= e * u32::MAX,
                forall|f: int| 0 <= f < e ==> !#[trigger] is_busy_leaf(before, i, f),
            decreases count - e,
        {
            match self.node(node_idx).child(e) {
                Some(c) => {
                    assert(before[i].children@[e as int] == Some(c));
                    let child: &Node<S> = self.node(c);
                    if (child.n() <= 1 || child.is_terminal()) && child.n_in_flight() > 0 {
                        assert(is_busy_leaf(before, i, e as int));
                        return false;
                    }
                    total = total + child.n_in_flight() as u64;
                },
                None => {},
            }
            e += 1;
            assert((e - 1) * u32::MAX + u32::MAX == e * u32::MAX) by (nonlinear_arith);
        }
        if total != self.node(node_idx).n_in_flight() as u64 {
            return false;
        }
        let mut e: usize = 0;
        while e < count
            invariant
                i == node_idx,
                self.wf(),
                node_idx < before.len(),
                node_linked(before, i),
                count == before[i].children@.len(),
                count == before[i].edges@.len(),
                count <= u8::MAX,
                e <= count,
                before.len() + u8::MAX < usize::MAX,
                before.len() <= self.nodes().len() <= before.len() + e,
                *self == (NodeTree { arena: self.arena, ..*old(self) }),
                forall|j: int|
                    0 <= j < before.len() && j != i ==> #[trigger] self.nodes()[j] == before[j],
                forall|j: int|
                    before.len() <= j < self.nodes().len() ==> (#[trigger] self.nodes()[j]).is_fresh(
                        Some(node_idx),
                        self.nodes()[j].edge_index,
                    ),
                self.nodes()[i] == (Node { children: self.nodes()[i].children, ..before[i] }),
                self.nodes()[i].children@.len() == count,
                forall|f: int|
                    0 <= f < count ==> match #[trigger] before[i].children@[f] {
                        Some(c) => self.nodes()[i].children@[f] == Some(c),
                        None => if f < e {
                            self.nodes()[i].children@[f] matches Some(c) && before.len() <= c
                                < self.nodes().len() && self.nodes()[c as int].is_fresh(
                                Some(i as usize),
                                f as u16,
                            )
                        } else {
                            self.nodes()[i].children@[f] is None
                        },
                    },
            decreases count - e,
        {
            let ghost middle = self.nodes();
            let ghost was = before[i].children@[e as int];
            let child: usize = self.arena.spawn_child(node_idx, e);
            proof {
                assert(middle[i].children@[e as int] == was || was is None);
                assert forall|f: int| 0 <= f < count implies match #[trigger] before[i].children@[f] {
                    Some(c) => self.nodes()[i].children@[f] == Some(c),
                    None => if f < e + 1 {
                        self.nodes()[i].children@[f] matches Some(c) && before.len() <= c
                            < self.nodes().len() && self.nodes()[c as int].is_fresh(
                            Some(i as usize),
                            f as u16,
                        )
                    } else {
                        self.nodes()[i].children@[f] is None
                    },
                } by {
                    if f != e {
                        assert(self.nodes()[i].children@[f] == middle[i].children@[f]);
                    }
                }
            }
            e += 1;
        }
        let ghost middle = self.nodes();
        self.arena.nodes[node_idx].solid_children = true;
        proof {
            lemma_update_keeps_links(middle, i, self.nodes()[i]);
            assert forall|f: int| 0 <= f < count implies match #[trigger] before[i].children@[f] {
                Some(c) => self.nodes()[i].children@[f] == Some(c),
                None => self.nodes()[i].children@[f] matches Some(c) && before.len() <= c
                    < self.nodes().len() && self.nodes()[c as int].is_fresh(
                    Some(i as usize),
                    f as u16,
                ),
            } by {
                assert(middle[i].children@[f] == self.nodes()[i].children@[f]);
            }
        }
        true
    }
}

/// The children of a node with only the one behind edge `k` kept.
pub open spec fn only_child(children: Seq<Option<usize>>, k: int) -> Seq<Option<usize>> {
    Seq::new(
        children.len(),
        |i: int|
            if i == k {
                children[i]
            } else {
                None
            },
    )
}

/// The nodes after the game moved from node `h` to node `c`.
///
/// Where an edge `e` of `h` has the move, its child is kept, or created, as an
/// ordinary node, and all its siblings are dropped. Where no edge has it, `h`
/// keeps a single edge with the move and a fresh child.
pub open spec fn moved<S: Scalar>(
    before: Seq<Node<S>>,
    after: Seq<Node<S>>,
    h: int,
    mv: Move,
    c: int,
) -> bool {
    &&& 0 <= c < after.len()
    &&& forall|j: int| 0 <= j < before.len() && j != h && j != c ==> #[trigger] after[j] == before[j]
    &&& match first_edge(before[h], mv, 0) {
        Some(e) => {
            let kept = match before[h].children@[e] {
                Some(old_child) => before[h].children@,
                None => before[h].children@.update(e, Some(before.len() as usize)),
            };
            &&& kept[e] == Some(c as usize)
            &&& after[h] == (Node {
                children: after[h].children,
                solid_children: false,
                ..before[h]
            })
            &&& after[h].children@ == only_child(kept, e)
            &&& match before[h].children@[e] {
                Some(old_child) => after.len() == before.len() && after[c] == (
                if before[c].spec_is_terminal() {
                    before[c].made_not_terminal(all_child_stats(before, c))
                } else {
                    before[c]
                }),
                None => after.len() == before.len() + 1 && after[c].is_fresh(
                    Some(h as usize),
                    e as u16,
                ),
            }
        },
        None => {
            &&& c == before.len()
            &&& after.len() == before.len() + 1
            &&& after[h] == (Node {
                edges: after[h].edges,
                children: after[h].children,
                solid_children: false,
                ..before[h]
            })
            &&& after[h].edges@ == seq![Edge { mv, p: 0 }]
            &&& after[h].children@ == seq![Some(c as usize)]
            &&& after[c].is_fresh(Some(h as usize), 0)
        },
    }
}

/// The child that a move leads to may become an ordinary node: the visits of its
/// own children fit a counter.
pub open spec fn can_move<S: Scalar>(nodes: Seq<Node<S>>, h: int, mv: Move) -> bool {
    match first_edge(nodes[h], mv, 0) {
        Some(e) => match nodes[h].children@[e] {
            Some(c) => nodes[c as int].spec_is_terminal() ==> reopened_n(
                all_child_stats(nodes, c as int),
            ) <= u32::MAX,
            None => true,
        },
        None => true,
    }
}

/// Every node that a line of moves leads through may become an ordinary node.
pub open spec fn can_reopen_along<S: Scalar>(
    nodes: Seq<Node<S>>,
    h: int,
    moves: Seq<(Move, Position)>,
) -> bool
    decreases moves.len(),
{
    moves.len() == 0 || (can_move(nodes, h, moves[0].0) && match first_edge(
        nodes[h],
        moves[0].0,
        0,
    ) {
        Some(e) => match nodes[h].children@[e] {
            Some(c) => can_reopen_along(nodes, c as int, moves.drop_first()),
            None => true,
        },
        None => true,
    })
}

proof fn lemma_first_edge_in_range<S>(node: Node<S>, mv: Move, from: int)
    ensures
        first_edge(node, mv, from) matches Some(e) ==> 0 <= e < node.edges@.len(),
    decreases node.edges@.len() - from,
{
    if 0 <= from < node.edges@.len() {
        lemma_first_edge_in_range(node, mv, from + 1);
    }
}

proof fn lemma_first_edge_same<S>(a: Node<S>, b: Node<S>, mv: Move, from: int)
    requires
        a.edges@ == b.edges@,
    ensures
        first_edge(a, mv, from) == first_edge(b, mv, from),
    decreases a.edges@.len() - from,
{
    if 0 <= from < a.edges@.len() {
        lemma_first_edge_same(a, b, mv, from + 1);
    }
}

proof fn lemma_child_stats_same<S>(before: Seq<Node<S>>, after: Seq<Node<S>>, i: int, k: int)
    requires
        well_linked(before),
        0 <= i < before.len() <= after.len(),
        0 <= k <= before[i].children@.len(),
        after[i].children@ == before[i].children@,
        forall|j: int| i < j < before.len() ==> #[trigger] after[j] == before[j],
    ensures
        child_stats(before, i, k) == child_stats(after, i, k),
    decreases k,
{
    if k > 0 {
        assert(node_linked(before, i));
        lemma_child_stats_same(before, after, i, k - 1);
        assert(before[i].children@[k - 1] == after[i].children@[k - 1]);
    }
}

/// What lies ahead of a node depends on its edges and on the nodes behind it in
/// the arena.
proof fn lemma_reopen_same<S: Scalar>(
    before: Seq<Node<S>>,
    after: Seq<Node<S>>,
    x: int,
    moves: Seq<(Move, Position)>,
)
    requires
        well_linked(before),
        0 <= x < before.len() <= after.len(),
        after[x].edges@ == before[x].edges@,
        after[x].children@ == before[x].children@,
        forall|j: int| x < j < before.len() ==> #[trigger] after[j] == before[j],
        can_reopen_along(before, x, moves),
    ensures
        can_reopen_along(after, x, moves),
    decreases moves.len(),
{
    if moves.len() > 0 {
        assert(node_linked(before, x));
        lemma_first_edge_same(before[x], after[x], moves[0].0, 0);
        lemma_first_edge_in_range(before[x], moves[0].0, 0);
        match first_edge(before[x], moves[0].0, 0) {
            Some(e) => match before[x].children@[e] {
                Some(c) => {
                    assert(after[x].children@[e] == Some(c));
                    assert(after[c as int] == before[c as int]);
                    lemma_child_stats_same(
                        before,
                        after,
                        c as int,
                        before[c as int].children@.len() as int,
                    );
                    lemma_reopen_same(before, after, c as int, moves.drop_first());
                },
                None => {},
            },
            None => {},
        }
    }
}

proof fn lemma_reopen_step<S: Scalar>(
    before: Seq<Node<S>>,
    after: Seq<Node<S>>,
    h: int,
    mv: Move,
    c: int,
    moves: Seq<(Move, Position)>,
)
    requires
        well_linked(before),
        0 <= h < before.len(),
        moves.len() > 0,
        moves[0].0 == mv,
        can_reopen_along(before, h, moves),
        moved(before, after, h, mv, c),
    ensures
        can_reopen_along(after, c, moves.drop_first()),
{
    assert(node_linked(before, h));
    lemma_first_edge_in_range(before[h], mv, 0);
    match first_edge(before[h], mv, 0) {
        Some(e) => match before[h].children@[e] {
            Some(k) => {
                assert(k == c);
                lemma_reopen_same(before, after, c, moves.drop_first());
            },
            None => {},
        },
        None => {},
    }
}

proof fn lemma_first_edge<S>(node: Node<S>, mv: Move, from: int, at: int)
    requires
        0 <= from <= at <= node.edges@.len(),
        forall|k: int| from <= k < at ==> node.edges@[k].mv != mv,
    ensures
        first_edge(node, mv, from) == first_edge(node, mv, at),
    decreases at - from,
{
    if from < at {
        lemma_first_edge(node, mv, from + 1, at);
    }
}

/// Replacing a node by one that keeps its place and some of its children, in
/// their places, keeps all links in agreement.
proof fn lemma_fewer_children_keep_links<S>(nodes: Seq<Node<S>>, i: int, node: Node<S>)
    requires
        well_linked(nodes),
        0 <= i < nodes.len(),
        node.parent == nodes[i].parent,
        node.edge_index == nodes[i].edge_index,
        node.edges@.len() == node.children@.len(),
        node.edges@.len() <= u8::MAX,
        forall|e: int|
            0 <= e < node.children@.len() ==> (#[trigger] node.children@[e] is None || (e
                < nodes[i].children@.len() && node.children@[e] == nodes[i].children@[e])),
    ensures
        well_linked(nodes.update(i, node)),
{
    let after = nodes.update(i, node);
    assert forall|j: int| 0 <= j < after.len() implies #[trigger] node_linked(after, j) by {
        assert(node_linked(nodes, j));
        assert forall|e: int| 0 <= e < after[j].children@.len() implies (
        #[trigger] after[j].children@[e] matches Some(c) ==> j < c < after.len()
            && after[c as int].parent == Some(j as usize) && after[c as int].edge_index == e) by {
            if after[j].children@[e] is Some {
                assert(nodes[j].children@[e] == after[j].children@[e]);
            }
        }
    }
}

/// Whether the `i`-th move of a game leads from one state of the nodes to the next.
pub open spec fn plays_move<S: Scalar>(
    states: Seq<Seq<Node<S>>>,
    heads: Seq<int>,
    moves: Seq<(Move, Position)>,
    i: int,
) -> bool {
    moved(states[i], states[i + 1], heads[i], moves[i].0, heads[i + 1])
}

/// Whether a state of a game is in order: the links agree, and the head is a node.
pub open spec fn is_state<S: Scalar>(
    states: Seq<Seq<Node<S>>>,
    heads: Seq<int>,
    i: int,
) -> bool {
    well_linked(states[i]) && 0 <= heads[i] < states[i].len() <= usize::MAX
}

/// Whether a game goes through these states of the nodes, with these heads, move by move.
pub open spec fn plays<S: Scalar>(
    states: Seq<Seq<Node<S>>>,
    heads: Seq<int>,
    moves: Seq<(Move, Position)>,
) -> bool {
    &&& states.len() == moves.len() + 1
    &&& heads.len() == moves.len() + 1
    &&& forall|i: int| 0 <= i < states.len() ==> #[trigger] is_state(states, heads, i)
    &&& forall|i: int| 0 <= i < moves.len() ==> #[trigger] plays_move(states, heads, moves, i)
}

/// The nodes after a game to which they do not belong began: one fresh root behind those that
/// are left.
pub open spec fn begins_anew<S: Scalar>(left: Seq<Node<S>>, nodes: Seq<Node<S>>) -> bool {
    &&& nodes.len() == left.len() + 1
    &&& nodes.drop_last() == left
    &&& nodes.last().is_fresh(None, 0)
}

/// Whether nodes differ in one at most, which is fresh in its place.
pub open spec fn fresh_at<S: Scalar>(before: Seq<Node<S>>, after: Seq<Node<S>>, h: int) -> bool {
    &&& after.len() == before.len()
    &&& forall|j: int| 0 <= j < before.len() && j != h ==> #[trigger] after[j] == before[j]
    &&& after[h].is_fresh(before[h].parent, before[h].edge_index)
}

/// A move leads to a node behind that from which it was played.
proof fn lemma_move_leads_on<S: Scalar>(
    before: Seq<Node<S>>,
    after: Seq<Node<S>>,
    h: int,
    mv: Move,
    c: int,
)
    requires
        well_linked(before),
        0 <= h < before.len(),
        before.len() <= usize::MAX,
        moved(before, after, h, mv, c),
    ensures
        h < c,
        before.len() <= after.len(),
        forall|e: int|
            0 <= e < after[h].children@.len() ==> (#[trigger] after[h].children@[e] is None
                || after[h].children@[e] == Some(c as usize)),
{
    assert(node_linked(before, h));
    lemma_first_edge_in_range(before[h], mv, 0);
    match first_edge(before[h], mv, 0) {
        Some(e) => {
            if before[h].children@[e] is Some {
                assert(before[h].children@[e] == Some(c as usize));
            }
        },
        None => {},
    }
}

/// The heads of a game stand one behind the other.
proof fn lemma_heads_rise<S: Scalar>(
    states: Seq<Seq<Node<S>>>,
    heads: Seq<int>,
    moves: Seq<(Move, Position)>,
    i: int,
    j: int,
)
    requires
        plays(states, heads, moves),
        0 <= i < j <= moves.len(),
    ensures
        heads[i] < heads[j],
        states[i].len() <= states[j].len(),
    decreases j - i,
{
    assert(is_state(states, heads, j - 1));
    assert(plays_move(states, heads, moves, j - 1));
    lemma_move_leads_on(states[j - 1], states[j], heads[j - 1], moves[j - 1].0, heads[j]);
    if i < j - 1 {
        lemma_heads_rise(states, heads, moves, i, j - 1);
    }
}

/// A game changes no node but those of its own line.
proof fn lemma_only_the_line_changes<S: Scalar>(
    states: Seq<Seq<Node<S>>>,
    heads: Seq<int>,
    moves: Seq<(Move, Position)>,
    from: int,
    to: int,
    x: int,
)
    requires
        plays(states, heads, moves),
        0 <= from <= to <= moves.len(),
        0 <= x < states[from].len(),
        forall|k: int| from <= k <= to ==> #[trigger] heads[k] != x,
    ensures
        x < states[to].len(),
        states[to][x] == states[from][x],
    decreases to - from,
{
    if from < to {
        lemma_only_the_line_changes(states, heads, moves, from, to - 1, x);
        assert(is_state(states, heads, to - 1));
        assert(plays_move(states, heads, moves, to - 1));
        lemma_move_leads_on(states[to - 1], states[to], heads[to - 1], moves[to - 1].0, heads[to]);
        assert(heads[to - 1] != x && heads[to] != x);
        assert(states[to][x] == states[to - 1][x]);
    }
}

/// Once a game has been played, each node of its line leads to the next of the line and to
/// nothing else.
proof fn lemma_other_lines_are_dropped<S: Scalar>(
    states: Seq<Seq<Node<S>>>,
    heads: Seq<int>,
    moves: Seq<(Move, Position)>,
    i: int,
    e: int,
)
    requires
        plays(states, heads, moves),
        0 <= i < moves.len(),
        0 <= e < states.last()[heads[i]].children@.len(),
    ensures
        states.last()[heads[i]].children@[e] is None || states.last()[heads[i]].children@[e] == Some(
            heads[i + 1] as usize,
        ),
{
    assert(is_state(states, heads, i));
    assert(plays_move(states, heads, moves, i));
    lemma_move_leads_on(states[i], states[i + 1], heads[i], moves[i].0, heads[i + 1]);
    assert forall|k: int| i + 1 <= k <= moves.len() implies #[trigger] heads[k] != heads[i] by {
        lemma_heads_rise(states, heads, moves, i, k);
    }
    lemma_only_the_line_changes(states, heads, moves, i + 1, moves.len() as int, heads[i]);
}

/// A game that goes on from the same start changes no node but those of its own line: the
/// subtree of the position that it reached is kept.
pub proof fn law_reset_keeps_the_subtree<S: Scalar>(
    before: NodeTree<S>,
    after: NodeTree<S>,
    startpos: Position,
    moves: Seq<(Move, Position)>,
    same_game: bool,
    states: Seq<Seq<Node<S>>>,
    heads: Seq<int>,
    x: int,
)
    requires
        before.is_reset(after, startpos, moves, same_game, states, heads),
        before.keeps_game(startpos),
        0 <= x < before.nodes().len(),
        !heads.contains(x),
    ensures
        x < after.nodes().len(),
        after.nodes()[x] == before.nodes()[x],
{
    assert forall|k: int| 0 <= k <= moves.len() implies #[trigger] heads[k] != x by {
        assert(heads.contains(heads[k]));
    }
    lemma_only_the_line_changes(states, heads, moves, 0, moves.len() as int, x);
}

/// A head that the tree already had keeps its edges and statistics where the game goes on
/// through the old head, unless it was terminal.
pub proof fn law_reset_keeps_the_new_head<S: Scalar>(
    before: NodeTree<S>,
    after: NodeTree<S>,
    startpos: Position,
    moves: Seq<(Move, Position)>,
    states: Seq<Seq<Node<S>>>,
    heads: Seq<int>,
)
    requires
        before.is_reset(after, startpos, moves, true, states, heads),
        heads.last() < before.nodes().len(),
        !before.nodes()[heads.last()].spec_is_terminal() || moves.len() == 0,
    ensures
        after.nodes()[heads.last()] == before.nodes()[heads.last()],
{
    let n = moves.len() as int;
    if n > 0 {
        let h = heads[n];
        assert(is_state(states, heads, n));
        assert forall|k: int| 0 <= k <= n - 1 implies #[trigger] heads[k] != h by {
            lemma_heads_rise(states, heads, moves, k, n);
        }
        lemma_only_the_line_changes(states, heads, moves, 0, n - 1, h);
        assert(is_state(states, heads, n - 1));
        assert(plays_move(states, heads, moves, n - 1));
        assert(node_linked(states[n - 1], heads[n - 1]));
        lemma_first_edge_in_range(states[n - 1][heads[n - 1]], moves[n - 1].0, 0);
    }
}

/// Once a game has been reached, each node on the way leads to the next one and to nothing
/// else: all other lines are dropped.
pub proof fn law_reset_drops_other_lines<S: Scalar>(
    before: NodeTree<S>,
    after: NodeTree<S>,
    startpos: Position,
    moves: Seq<(Move, Position)>,
    same_game: bool,
    states: Seq<Seq<Node<S>>>,
    heads: Seq<int>,
    i: int,
    e: int,
)
    requires
        before.is_reset(after, startpos, moves, same_game, states, heads),
        0 <= i < moves.len(),
        0 <= e < after.nodes()[heads[i]].children@.len(),
    ensures
        after.nodes()[heads[i]].children@[e] is None || after.nodes()[heads[i]].children@[e]
            == Some(heads[i + 1] as usize),
{
    let n = moves.len() as int;
    lemma_heads_rise(states, heads, moves, i, n);
    assert(is_state(states, heads, i));
    assert(after.nodes()[heads[i]] == states.last()[heads[i]]);
    lemma_other_lines_are_dropped(states, heads, moves, i, e);
}

impl<S: Scalar> NodeTree<S> {
    /// Whether this tree becomes `after` through these states, with these heads, when it is
    /// brought to the position that a game has reached: the game is played on the nodes that are kept, or on a fresh root, and where
    /// the old head does not lie on the way the new head is fresh.
    pub open spec fn is_reset(
        self,
        after: Self,
        startpos: Position,
        moves: Seq<(Move, Position)>,
        same_game: bool,
        states: Seq<Seq<Node<S>>>,
        heads: Seq<int>,
    ) -> bool {
        &&& plays(states, heads, moves)
        &&& if self.keeps_game(startpos) {
            states[0] == self.nodes() && after.gamebegin == self.gamebegin
        } else {
            begins_anew(
                if self.gamebegin is Some {
                    Seq::empty()
                } else {
                    self.nodes()
                },
                states[0],
            ) && heads[0] == states[0].len() - 1
        }
        &&& after.gamebegin == Some(heads[0] as usize)
        &&& after.current_head == Some(heads.last() as usize)
        &&& after.history@ == seq![startpos] + moves.map_values(|m: (Move, Position)| m.1)
        &&& same_game == (self.keeps_game(startpos) && heads.contains(self.head()))
        &&& if same_game {
            after.nodes() == states.last()
        } else {
            fresh_at(states.last(), after.nodes(), heads.last())
        }
    }

    /// Whether this tree becomes `after` when it is brought to the position that a game has
    /// reached, through some states of the nodes.
    pub open spec fn is_reset_to(
        self,
        after: Self,
        startpos: Position,
        moves: Seq<(Move, Position)>,
        same_game: bool,
    ) -> bool {
        exists|states: Seq<Seq<Node<S>>>, heads: Seq<int>| #[trigger]
            self.is_reset(after, startpos, moves, same_game, states, heads)
    }

    /// Plays a move that leads to the position `next`.
    pub fn make_move(&mut self, mv: Move, next: Position)
        requires
            old(self).wf(),
            old(self).current_head is Some,
            old(self).nodes().len() < usize::MAX,
            can_move(old(self).nodes(), old(self).head(), mv),
        ensures
            final(self).wf(),
            final(self).current_head is Some,
            moved(
                old(self).nodes(),
                final(self).nodes(),
                old(self).head(),
                mv,
                final(self).head(),
            ),
            final(self).nodes()[final(self).head()].parent == Some(old(self).head() as usize),
            final(self).gamebegin == old(self).gamebegin,
            final(self).history@ == old(self).history@.push(next),
    {
        let head: usize = self.current_head();
        let ghost before = self.nodes();
        let ghost h = head as int;
        proof {
            assert(node_linked(before, h));
        }
        let count: usize = self.node(head).num_edges();
        let mut edge_idx: usize = 0;
        while edge_idx < count && self.node(head).edge(edge_idx).mv != mv
            invariant
                *self == *old(self),
                self.wf(),
                head < self.nodes().len(),
                count == self.nodes()[head as int].edges@.len(),
                edge_idx <= count,
                forall|k: int|
                    0 <= k < edge_idx ==> self.nodes()[head as int].edges@[k].mv != mv,
            decreases count - edge_idx,
        {
            edge_idx += 1;
        }
        proof {
            lemma_first_edge(before[h], mv, 0, edge_idx as int);
        }
        if edge_idx < count {
            let child_idx: usize = self.arena.spawn_child(head, edge_idx);
            let ghost middle = self.nodes();
            proof {
                assert(node_linked(middle, h));
                assert(middle[h].children@[edge_idx as int] == Some(child_idx));
            }
            if self.node(child_idx).is_terminal() {
                assert(middle =~= before);
                self.make_not_terminal(child_idx);
            }
            self.current_head = Some(child_idx);
            let ghost opened = self.nodes();
            self.arena.nodes[head].release_children_except_one(Some(edge_idx));
            proof {
                assert(opened[h] == middle[h]);
                assert(self.nodes() =~= opened.update(h, self.nodes()[h]));
                assert(node_linked(opened, h));
                lemma_fewer_children_keep_links(opened, h, self.nodes()[h]);
                assert(self.nodes()[h].children@ =~= only_child(
                    middle[h].children@,
                    edge_idx as int,
                ));
            }
        } else {
            self.arena.nodes[head].release_children_except_one(None);
            self.arena.nodes[head].create_single_child_node(mv);
            let ghost middle = self.nodes();
            proof {
                assert(middle =~= before.update(h, middle[h]));
                lemma_fewer_children_keep_links(before, h, middle[h]);
            }
            let child_idx: usize = self.arena.spawn_child(head, 0);
            proof {
                assert(self.nodes()[h].children@ =~= seq![Some(child_idx)]);
            }
            self.current_head = Some(child_idx);
        }
        self.history.push(next);
    }

    /// Drops everything below the head and its statistics.
    pub fn trim_tree_at_head(&mut self)
        requires
            old(self).wf(),
            old(self).current_head is Some,
        ensures
            final(self).wf(),
            final(self).nodes().len() == old(self).nodes().len(),
            forall|j: int|
                0 <= j < old(self).nodes().len() && j != old(self).head()
                    ==> #[trigger] final(self).nodes()[j] == old(self).nodes()[j],
            final(self).nodes()[old(self).head()].is_fresh(
                old(self).nodes()[old(self).head()].parent,
                old(self).nodes()[old(self).head()].edge_index,
            ),
            *final(self) == (NodeTree { arena: final(self).arena, ..*old(self) }),
    {
        let head: usize = self.current_head();
        let ghost before = self.nodes();
        let parent: Option<usize> = self.node(head).parent();
        let edge_index: u16 = self.node(head).edge_index();
        self.arena.nodes[head] = Node::new(parent, edge_index);
        proof {
            assert(self.nodes() =~= before.update(head as int, self.nodes()[head as int]));
            lemma_fewer_children_keep_links(before, head as int, self.nodes()[head as int]);
        }
    }

    fn deallocate_tree(&mut self)
        ensures
            final(self).wf(),
            final(self).nodes().len() == 0,
            final(self).gamebegin is None,
            final(self).current_head is None,
            final(self).history@.len() == 0,
    {
        self.arena = NodeArena::new();
        self.gamebegin = None;
        self.current_head = None;
        self.history = Vec::new();
    }

    /// Whether a tree is kept for a game that starts from a position.
    pub open spec fn keeps_game(self, startpos: Position) -> bool {
        self.gamebegin is Some && self.history@.len() > 0 && self.history@[0] == startpos
    }

    /// Moves the tree to the position that a game has reached from `startpos`, by
    /// the given moves and the positions that they lead to.
    ///
    /// Returns whether the old head lies on the way. Where it does not, the new
    /// head starts without edges and visits.
    pub fn reset_to_position(&mut self, startpos: Position, moves: &Vec<(Move, Position)>) -> (r: bool)
        requires
            old(self).wf(),
            old(self).gamebegin is Some ==> old(self).history@.len() > 0,
            old(self).nodes().len() + moves@.len() + 1 < usize::MAX,
            old(self).keeps_game(startpos) ==> can_reopen_along(
                old(self).nodes(),
                old(self).gamebegin->Some_0 as int,
                moves@,
            ),
        ensures
            final(self).wf(),
            final(self).current_head is Some,
            final(self).history@ == seq![startpos] + moves@.map_values(|m: (Move, Position)| m.1),
            old(self).keeps_game(startpos) ==> final(self).gamebegin == old(self).gamebegin,
            r == (old(self).keeps_game(startpos) && is_ancestor(
                final(self).nodes(),
                old(self).head(),
                final(self).head(),
            )),
            !r ==> final(self).nodes()[final(self).head()].is_fresh(
                final(self).nodes()[final(self).head()].parent,
                final(self).nodes()[final(self).head()].edge_index,
            ),
            old(self).is_reset_to(*final(self), startpos, moves@, r),
    {
        let ghost kept = self.keeps_game(startpos);
        if self.gamebegin.is_some() && self.history[0] != startpos {
            self.deallocate_tree();
        }
        let ghost start = self.nodes();
        if self.gamebegin.is_none() {
            let root: usize = self.arena.allocate(Node::new(None, 0));
            self.gamebegin = Some(root);
            proof {
                assert(well_linked(self.nodes())) by {
                    assert forall|j: int| 0 <= j < self.nodes().len() implies #[trigger] node_linked(
                        self.nodes(),
                        j,
                    ) by {
                        if j < start.len() {
                            assert(node_linked(start, j));
                            assert forall|e: int| 0 <= e < self.nodes()[j].children@.len() implies (
                            #[trigger] self.nodes()[j].children@[e] matches Some(c) ==> j < c
                                < self.nodes().len() && self.nodes()[c as int].parent == Some(
                                j as usize,
                            ) && self.nodes()[c as int].edge_index == e) by {
                                assert(start[j].children@[e] == self.nodes()[j].children@[e]);
                            }
                        }
                    }
                }
            }
        }
        self.history = Vec::new();
        self.history.push(startpos);
        let old_head: Option<usize> = self.current_head;
        self.current_head = self.gamebegin;
        let mut seen_old_head: bool = old_head == self.current_head;
        let mut i: usize = 0;
        let ghost begin = self.nodes().len();
        let ghost mut states: Seq<Seq<Node<S>>> = seq![self.nodes()];
        let ghost mut heads: Seq<int> = seq![self.head()];
        let ghost first = self.nodes();
        let ghost first_head = self.head();
        proof {
            if !kept {
                assert(first.drop_last() =~= start);
                if old(self).gamebegin is Some {
                    assert(start =~= Seq::empty());
                }
            }
            assert(heads[0] == first_head);
            assert(is_state(states, heads, 0));
            assert(moves@.skip(0) =~= moves@);
            assert(self.history@ =~= seq![startpos] + moves@.take(0).map_values(
                |m: (Move, Position)| m.1,
            ));
        }
        while i < moves.len()
            invariant
                i <= moves.len(),
                self.wf(),
                self.current_head is Some,
                begin + moves@.len() < usize::MAX,
                self.nodes().len() <= begin + i,
                kept ==> self.gamebegin == old(self).gamebegin,
                kept == (old_head is Some),
                kept ==> old_head == old(self).current_head,
                kept == old(self).keeps_game(startpos),
                seen_old_head == (kept && is_ancestor(
                    self.nodes(),
                    old(self).head(),
                    self.head(),
                )),
                old(self).wf(),
                kept ==> old(self).current_head is Some,
                can_reopen_along(self.nodes(), self.head(), moves@.skip(i as int)),
                self.history@ =~= seq![startpos] + moves@.take(i as int).map_values(
                    |m: (Move, Position)| m.1,
                ),
                self.gamebegin == Some(first_head as usize),
                states.len() == i + 1,
                heads.len() == i + 1,
                states[0] == first,
                heads[0] == first_head,
                states.last() == self.nodes(),
                heads.last() == self.head(),
                forall|k: int| 0 <= k <= i ==> #[trigger] is_state(states, heads, k),
                forall|k: int| 0 <= k < i ==> #[trigger] plays_move(states, heads, moves@, k),
                seen_old_head == (kept && heads.contains(old(self).head())),
            decreases moves.len() - i,
        {
            let ghost before = self.nodes();
            let ghost h = self.head();
            let (mv, next) = moves[i];
            proof {
                assert(moves@.skip(i as int)[0] == moves@[i as int]);
                assert(moves@.skip(i as int).drop_first() =~= moves@.skip(i + 1));
            }
            self.make_move(mv, next);
            if old_head == self.current_head {
                seen_old_head = true;
            }
            proof {
                let c = self.head();
                assert forall|j: int| 0 <= j <= h implies (#[trigger] before[j]).parent
                    == self.nodes()[j].parent by {
                    assert(node_linked(self.nodes(), c));
                }
                lemma_ancestor_stable(before, self.nodes(), old(self).head(), h);
                assert(node_linked(self.nodes(), c));
                assert(moves@.take(i + 1) =~= moves@.take(i as int).push(moves@[i as int]));
                lemma_reopen_step(before, self.nodes(), h, mv, c, moves@.skip(i as int));
                let earlier_states = states;
                let earlier = heads;
                states = states.push(self.nodes());
                heads = heads.push(c);
                assert forall|k: int| 0 <= k <= i + 1 implies #[trigger] is_state(states, heads, k) by {
                    if k <= i {
                        assert(is_state(earlier_states, earlier, k));
                    }
                }
                assert forall|k: int| 0 <= k < i + 1 implies #[trigger] plays_move(
                    states,
                    heads,
                    moves@,
                    k,
                ) by {
                    if k < i {
                        assert(plays_move(earlier_states, earlier, moves@, k));
                    }
                }
                assert(heads[i + 1] == c);
                if earlier.contains(old(self).head()) {
                    let k = choose|k: int| 0 <= k < earlier.len() && earlier[k] == old(self).head();
                    assert(heads[k] == old(self).head());
                }
                if heads.contains(old(self).head()) && c != old(self).head() {
                    let k = choose|k: int| 0 <= k < heads.len() && heads[k] == old(self).head();
                    assert(earlier[k] == old(self).head());
                }
            }
            i += 1;
        }
        assert(moves@.take(i as int) =~= moves@);
        let ghost walked = self.nodes();
        if !seen_old_head {
            self.trim_tree_at_head();
            proof {
                if kept {
                    lemma_ancestor_stable(walked, self.nodes(), old(self).head(), self.head());
                }
            }
        }
        assert(old(self).is_reset(*self, startpos, moves@, seen_old_head, states, heads));
        seen_old_head
    }
}

impl<S: Scalar> Default for NodeTree<S> {
    fn default() -> (r: Self)
        ensures
            r.wf(),
            r.nodes().len() == 0,
            r.gamebegin is None,
            r.current_head is None,
            r.history@.len() == 0,
    {
        NodeTree::new()
    }
}

} // verus!
