//! What the results known below a node say about the node itself.
use vstd::prelude::*;

use crate::classic::node::{Node, Terminal};
use crate::classic::ranking::child_node;
use crate::classic::tree::{lemma_update_keeps_links, node_linked, NodeTree};
use crate::exact::{lemma_shifting_keeps_order, rounds_by};
use crate::position::GameResult;
use crate::scalar::{larger, max_of, Scalar};

verus! {

/// What a scan of the children of a node has found, seen by the player to move.
#[derive(Clone, Copy, Debug)]
pub struct BoundsScan<S> {
    /// The best result that some child guarantees.
    pub lower: GameResult,
    /// The best result that some child still allows.
    pub upper: GameResult,
    /// The longest of the lines that lose.
    pub losing_m: S,
    pub prefer_tablebase: bool,
    /// A child wins without a tablebase, so the others do not matter.
    pub decided: bool,
}

/// The lower bound of a child; nothing is guaranteed where there is none.
pub open spec fn lower_of<S>(child: Option<Node<S>>) -> GameResult {
    match child {
        Some(node) => node.lower_bound,
        None => GameResult::BlackWon,
    }
}

/// The upper bound of a child; everything is possible where there is none.
pub open spec fn upper_of<S>(child: Option<Node<S>>) -> GameResult {
    match child {
        Some(node) => node.upper_bound,
        None => GameResult::WhiteWon,
    }
}

/// The scan of the children behind the first `k` edges.
pub open spec fn scan_bounds<S: Scalar>(nodes: Seq<Node<S>>, i: int, k: int) -> BoundsScan<S>
    decreases k,
{
    if k <= 0 {
        BoundsScan {
            lower: GameResult::BlackWon,
            upper: GameResult::BlackWon,
            losing_m: S::spec_zero(),
            prefer_tablebase: false,
            decided: false,
        }
    } else {
        let before = scan_bounds(nodes, i, k - 1);
        if before.decided {
            before
        } else {
            let child = child_node(nodes, i, k - 1);
            let lower = before.lower.spec_better(lower_of(child));
            let upper = before.upper.spec_better(upper_of(child));
            let is_tablebase = child matches Some(node) && node.terminal == Terminal::Tablebase;
            if lower_of(child) == GameResult::WhiteWon && !is_tablebase {
                BoundsScan {
                    lower,
                    upper,
                    losing_m: before.losing_m,
                    prefer_tablebase: false,
                    decided: true,
                }
            } else {
                BoundsScan {
                    lower,
                    upper,
                    losing_m: if upper_of(child) == GameResult::BlackWon {
                        larger(
                            before.losing_m,
                            match child {
                                Some(node) => node.m,
                                None => S::spec_zero(),
                            },
                        )
                    } else {
                        before.losing_m
                    },
                    prefer_tablebase: before.prefer_tablebase || is_tablebase,
                    decided: false,
                }
            }
        }
    }
}

/// The scan of all children.
pub open spec fn scan_all<S: Scalar>(nodes: Seq<Node<S>>, i: int) -> BoundsScan<S> {
    scan_bounds(nodes, i, nodes[i].edges@.len() as int)
}

proof fn lemma_scan_decided<S: Scalar>(nodes: Seq<Node<S>>, i: int, k: int, to: int)
    requires
        k <= to,
        scan_bounds(nodes, i, k).decided,
    ensures
        scan_bounds(nodes, i, to) == scan_bounds(nodes, i, k),
    decreases to - k,
{
    if k < to {
        lemma_scan_decided(nodes, i, k, to - 1);
    }
}

/// What the bounds of a node's children made of the node.
#[derive(Clone, Copy, Debug)]
pub enum BoundsOutcome<S> {
    /// Nothing is known.
    Unknown,
    /// The bounds of the node have been narrowed.
    Narrowed,
    /// The node has become terminal. Its `n_to_fix` visits had other values, which
    /// differ by these amounts, seen by the parent.
    Proven { n_to_fix: u32, v_delta: S, d_delta: S, m_delta: S },
}

/// The length of the line from a node whose result is certain: one ply more than
/// that of the last visit, or than the longest losing line where all lose.
pub open spec fn proven_length<S: Scalar>(scan: BoundsScan<S>, m: S) -> S {
    (if scan.upper == GameResult::BlackWon {
        larger(scan.losing_m, m)
    } else {
        m
    }).spec_plus(S::spec_one())
}

/// Scans the children of a node.
pub(crate) fn scan_children<S: Scalar>(tree: &NodeTree<S>, parent_idx: usize) -> (r: BoundsScan<S>)
    requires
        tree.wf(),
        parent_idx < tree.nodes().len(),
    ensures
        r == scan_all(tree.nodes(), parent_idx as int),
{
    let mut scan: BoundsScan<S> = BoundsScan {
        lower: GameResult::BlackWon,
        upper: GameResult::BlackWon,
        losing_m: S::zero(),
        prefer_tablebase: false,
        decided: false,
    };
    let count: usize = tree.node(parent_idx).num_edges();
    let mut e: usize = 0;
    while e < count && !scan.decided
        invariant
            tree.wf(),
            parent_idx < tree.nodes().len(),
            count == tree.nodes()[parent_idx as int].edges@.len(),
            e <= count,
            scan == scan_bounds(tree.nodes(), parent_idx as int, e as int),
        decreases count - e,
    {
        proof {
            assert(node_linked(tree.nodes(), parent_idx as int));
        }
        let child = tree.edge_and_node(parent_idx, e).node;
        let (edge_lower, edge_upper, is_tablebase, m) = match child {
            Some(node) => (
                node.lower_bound(),
                node.upper_bound(),
                node.is_tablebase_terminal(),
                node.m(),
            ),
            None => (GameResult::BlackWon, GameResult::WhiteWon, false, S::zero()),
        };
        scan.lower = scan.lower.better(edge_lower);
        scan.upper = scan.upper.better(edge_upper);
        if edge_lower == GameResult::WhiteWon && !is_tablebase {
            scan.prefer_tablebase = false;
            scan.decided = true;
        } else {
            if edge_upper == GameResult::BlackWon {
                scan.losing_m = max_of(scan.losing_m, m);
            }
            scan.prefer_tablebase = scan.prefer_tablebase || is_tablebase;
        }
        e += 1;
    }
    proof {
        if scan.decided {
            lemma_scan_decided(tree.nodes(), parent_idx as int, e as int, count as int);
        }
    }
    scan
}

/// How a node becomes terminal when its result is certain.
pub open spec fn proven_kind<S>(scan: BoundsScan<S>) -> Terminal {
    if scan.prefer_tablebase {
        Terminal::Tablebase
    } else {
        Terminal::EndOfGame
    }
}

/// The conclusion for node `i` from the bounds of its children, after a line of length `m`.
pub open spec fn bounds_outcome<S: Scalar>(nodes: Seq<Node<S>>, i: int, m: S) -> BoundsOutcome<S> {
    let scan = scan_all(nodes, i);
    if scan.lower == GameResult::BlackWon && scan.upper == GameResult::WhiteWon {
        BoundsOutcome::Unknown
    } else if scan.lower != scan.upper {
        BoundsOutcome::Narrowed
    } else {
        let after = nodes[i].made_terminal(
            scan.upper.spec_negate(),
            proven_length(scan, m),
            proven_kind(scan),
        );
        BoundsOutcome::Proven {
            n_to_fix: nodes[i].n,
            v_delta: after.wl.spec_minus(nodes[i].wl).spec_negated(),
            d_delta: after.d.spec_minus(nodes[i].d),
            m_delta: after.m.spec_minus(nodes[i].m),
        }
    }
}

/// `after` is `before` with the conclusion drawn for node `i`.
pub open spec fn bounds_set<S: Scalar>(
    before: Seq<Node<S>>,
    after: Seq<Node<S>>,
    i: int,
    m: S,
) -> bool {
    let scan = scan_all(before, i);
    match bounds_outcome(before, i, m) {
        BoundsOutcome::Unknown => after == before,
        BoundsOutcome::Narrowed => after == before.update(
            i,
            Node {
                lower_bound: scan.upper.spec_negate(),
                upper_bound: scan.lower.spec_negate(),
                ..before[i]
            },
        ),
        BoundsOutcome::Proven { n_to_fix, v_delta, d_delta, m_delta } => NodeTree::<S>::after_make_terminal(
            before,
            after,
            i,
            scan.upper.spec_negate(),
            proven_length(scan, m),
            proven_kind(scan),
        ),
    }
}

/// Draws the conclusion for a node from the bounds of its children.
///
/// Where the best guaranteed and the best possible result agree, the node becomes
/// terminal with the result that its player can force. Where they do not, its
/// bounds are set, unless nothing is known at all.
pub fn maybe_set_bounds<S: Scalar>(tree: &mut NodeTree<S>, parent_idx: usize, m: S) -> (r: BoundsOutcome<S>)
    requires
        old(tree).wf(),
        parent_idx < old(tree).nodes().len(),
        old(tree).nodes()[parent_idx as int].parent matches Some(p)
            ==> old(tree).nodes()[parent_idx as int].edge_index
            < old(tree).nodes()[p as int].edges@.len(),
    ensures
        final(tree).wf(),
        *final(tree) == (NodeTree { arena: final(tree).arena, ..*old(tree) }),
        r == bounds_outcome(old(tree).nodes(), parent_idx as int, m),
        bounds_set(old(tree).nodes(), final(tree).nodes(), parent_idx as int, m),
{
    let scan: BoundsScan<S> = scan_children(tree, parent_idx);
    if scan.lower == GameResult::BlackWon && scan.upper == GameResult::WhiteWon {
        return BoundsOutcome::Unknown;
    }
    if scan.lower == scan.upper {
        let n_to_fix: u32 = tree.node(parent_idx).n();
        let current_v: S = tree.node(parent_idx).wl();
        let current_d: S = tree.node(parent_idx).d();
        let current_m: S = tree.node(parent_idx).m();
        let length: S = if scan.upper == GameResult::BlackWon {
            max_of(scan.losing_m, m)
        } else {
            m
        };
        tree.make_terminal(
            parent_idx,
            scan.upper.negate(),
            length.plus(S::one()),
            if scan.prefer_tablebase {
                Terminal::Tablebase
            } else {
                Terminal::EndOfGame
            },
        );
        BoundsOutcome::Proven {
            n_to_fix,
            v_delta: tree.node(parent_idx).wl().minus(current_v).negated(),
            d_delta: tree.node(parent_idx).d().minus(current_d),
            m_delta: tree.node(parent_idx).m().minus(current_m),
        }
    } else {
        let ghost before = tree.nodes();
        tree.arena.nodes[parent_idx].set_bounds(scan.upper.negate(), scan.lower.negate());
        proof {
            lemma_update_keeps_links(before, parent_idx as int, tree.nodes()[parent_idx as int]);
        }
        BoundsOutcome::Narrowed
    }
}

/// The guaranteed result of a node is never better than the possible one, if that
/// holds of its children.
pub proof fn law_scan_keeps_bounds_in_order<S: Scalar>(nodes: Seq<Node<S>>, i: int, k: int)
    requires
        forall|e: int|
            0 <= e < k ==> lower_of(#[trigger] child_node(nodes, i, e)).spec_rank() <= upper_of(
                child_node(nodes, i, e),
            ).spec_rank(),
    ensures
        scan_bounds(nodes, i, k).lower.spec_rank() <= scan_bounds(nodes, i, k).upper.spec_rank(),
    decreases k,
{
    if k > 0 {
        law_scan_keeps_bounds_in_order(nodes, i, k - 1);
        assert(lower_of(child_node(nodes, i, k - 1)).spec_rank() <= upper_of(
            child_node(nodes, i, k - 1),
        ).spec_rank());
    }
}

/// A node is never proven lost for the player to move there while some edge has not
/// been tried.
pub proof fn law_open_edge_is_no_loss<S: Scalar>(nodes: Seq<Node<S>>, i: int, e: int, k: int)
    requires
        0 <= e < k,
        child_node(nodes, i, e) is None,
    ensures
        scan_bounds(nodes, i, k).upper == GameResult::WhiteWon || scan_bounds(nodes, i, k).decided,
    decreases k,
{
    if e < k - 1 {
        law_open_edge_is_no_loss(nodes, i, e, k - 1);
    }
}

proof fn lemma_scan_finds_a_win<S: Scalar>(nodes: Seq<Node<S>>, i: int, e: int, k: int)
    requires
        0 <= e < k,
        lower_of(child_node(nodes, i, e)) == GameResult::WhiteWon,
        upper_of(child_node(nodes, i, e)) == GameResult::WhiteWon,
        forall|f: int|
            0 <= f < k ==> lower_of(#[trigger] child_node(nodes, i, f)).spec_rank() <= upper_of(
                child_node(nodes, i, f),
            ).spec_rank(),
    ensures
        scan_bounds(nodes, i, k).lower == GameResult::WhiteWon,
        scan_bounds(nodes, i, k).upper == GameResult::WhiteWon,
    decreases k,
{
    assert(child_node(nodes, i, k - 1) == child_node(nodes, i, k - 1));
    if e < k - 1 {
        lemma_scan_finds_a_win(nodes, i, e, k - 1);
    } else {
        lemma_decided_is_won(nodes, i, k - 1);
    }
}

proof fn lemma_decided_is_won<S: Scalar>(nodes: Seq<Node<S>>, i: int, k: int)
    requires
        forall|f: int|
            0 <= f < k ==> lower_of(#[trigger] child_node(nodes, i, f)).spec_rank() <= upper_of(
                child_node(nodes, i, f),
            ).spec_rank(),
    ensures
        scan_bounds(nodes, i, k).decided ==> scan_bounds(nodes, i, k).lower == GameResult::WhiteWon
            && scan_bounds(nodes, i, k).upper == GameResult::WhiteWon,
    decreases k,
{
    if k > 0 {
        assert(lower_of(child_node(nodes, i, k - 1)).spec_rank() <= upper_of(
            child_node(nodes, i, k - 1),
        ).spec_rank());
        lemma_decided_is_won(nodes, i, k - 1);
    }
}

/// A node with a child that is a sure win for the player to move is a sure loss for the one
/// who moved there.
pub proof fn law_won_reply_loses_the_node<S: Scalar>(
    tree: &mut NodeTree<S>,
    parent_idx: usize,
    m: S,
    e: int,
    r: BoundsOutcome<S>,
)
    requires
        call_ensures(maybe_set_bounds::<S>, (tree, parent_idx, m), r),
        0 <= e < old(tree).nodes()[parent_idx as int].edges@.len(),
        child_node(old(tree).nodes(), parent_idx as int, e) matches Some(child)
            && child.lower_bound == GameResult::WhiteWon && child.upper_bound
            == GameResult::WhiteWon,
        forall|f: int|
            0 <= f < old(tree).nodes()[parent_idx as int].edges@.len() ==> lower_of(
                #[trigger] child_node(old(tree).nodes(), parent_idx as int, f),
            ).spec_rank() <= upper_of(
                child_node(old(tree).nodes(), parent_idx as int, f),
            ).spec_rank(),
    ensures
        r is Proven,
        ({
            let after = final(tree).nodes()[parent_idx as int];
            &&& after.spec_is_terminal()
            &&& after.lower_bound == GameResult::BlackWon
            &&& after.upper_bound == GameResult::BlackWon
            &&& after.wl == S::spec_one().spec_negated()
            &&& after.d == S::spec_zero()
            &&& after.m == m.spec_plus(S::spec_one())
        }),
{
    let nodes = old(tree).nodes();
    let i = parent_idx as int;
    lemma_scan_finds_a_win(nodes, i, e, nodes[i].edges@.len() as int);
}

proof fn lemma_scan_of_losses<S: Scalar>(
    value: spec_fn(S) -> real,
    round: spec_fn(real) -> real,
    nodes: Seq<Node<S>>,
    i: int,
    k: int,
)
    requires
        rounds_by(value, round),
        forall|f: int|
            0 <= f < k ==> (#[trigger] child_node(nodes, i, f) matches Some(child)
                && child.lower_bound == GameResult::BlackWon && child.upper_bound
                == GameResult::BlackWon),
    ensures
        scan_bounds(nodes, i, k).lower == GameResult::BlackWon,
        scan_bounds(nodes, i, k).upper == GameResult::BlackWon,
        !scan_bounds(nodes, i, k).decided,
        forall|f: int|
            0 <= f < k ==> value((#[trigger] child_node(nodes, i, f))->Some_0.m) <= value(
                scan_bounds(nodes, i, k).losing_m,
            ),
    decreases k,
{
    if k > 0 {
        lemma_scan_of_losses(value, round, nodes, i, k - 1);
        assert(child_node(nodes, i, k - 1) is Some);
    }
}

/// A node all of whose moves are sure losses for the player to move is a sure win for the
/// one who moved there, and the line is longer by a ply than the longest of them.
pub proof fn law_lost_replies_win_the_node<S: Scalar>(
    value: spec_fn(S) -> real,
    round: spec_fn(real) -> real,
    tree: &mut NodeTree<S>,
    parent_idx: usize,
    m: S,
    e: int,
    r: BoundsOutcome<S>,
)
    requires
        rounds_by(value, round),
        call_ensures(maybe_set_bounds::<S>, (tree, parent_idx, m), r),
        0 <= e < old(tree).nodes()[parent_idx as int].edges@.len(),
        forall|f: int|
            0 <= f < old(tree).nodes()[parent_idx as int].edges@.len() ==> (
            #[trigger] child_node(old(tree).nodes(), parent_idx as int, f) matches Some(child)
                && child.lower_bound == GameResult::BlackWon && child.upper_bound
                == GameResult::BlackWon),
    ensures
        r is Proven,
        ({
            let after = final(tree).nodes()[parent_idx as int];
            let child = child_node(old(tree).nodes(), parent_idx as int, e)->Some_0;
            &&& after.spec_is_terminal()
            &&& after.lower_bound == GameResult::WhiteWon
            &&& after.upper_bound == GameResult::WhiteWon
            &&& after.wl == S::spec_one()
            &&& after.d == S::spec_zero()
            &&& value(after.m) >= value(child.m.spec_plus(S::spec_one()))
            &&& value(after.m) >= value(m.spec_plus(S::spec_one()))
        }),
{
    let nodes = old(tree).nodes();
    let i = parent_idx as int;
    lemma_scan_of_losses(value, round, nodes, i, nodes[i].edges@.len() as int);
    let scan = scan_all(nodes, i);
    let longest = larger(scan.losing_m, m);
    let one = S::spec_one();
    let child = child_node(nodes, i, e)->Some_0;
    lemma_shifting_keeps_order(value, round, child.m, longest, one);
    lemma_shifting_keeps_order(value, round, m, longest, one);
}

/// What a proof tells of a node's visits is how its averages changed, the value seen by the
/// node's parent; a node about which nothing is known stays as it was, and one whose bounds
/// narrow keeps its averages.
pub proof fn law_proof_tells_the_change<S: Scalar>(
    tree: &mut NodeTree<S>,
    parent_idx: usize,
    m: S,
    r: BoundsOutcome<S>,
)
    requires
        call_ensures(maybe_set_bounds::<S>, (tree, parent_idx, m), r),
        parent_idx < old(tree).nodes().len(),
    ensures
        ({
            let before = old(tree).nodes()[parent_idx as int];
            let after = final(tree).nodes()[parent_idx as int];
            match r {
                BoundsOutcome::Unknown => final(tree).nodes() == old(tree).nodes(),
                BoundsOutcome::Narrowed => after.wl == before.wl && after.d == before.d && after.m
                    == before.m && after.n == before.n && after.terminal == before.terminal,
                BoundsOutcome::Proven { n_to_fix, v_delta, d_delta, m_delta } => {
                    &&& after.spec_is_terminal()
                    &&& n_to_fix == before.n
                    &&& v_delta == after.wl.spec_minus(before.wl).spec_negated()
                    &&& d_delta == after.d.spec_minus(before.d)
                    &&& m_delta == after.m.spec_minus(before.m)
                },
            }
        }),
{
}

} // verus!
