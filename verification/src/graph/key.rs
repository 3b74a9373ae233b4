//! The identity of a node.
use std::cmp::Ordering;

use vstd::prelude::*;
use vstd::std_specs::cmp::PartialOrdSpec;

verus! {

/// What two positions must have in common to share a node.
#[derive(Clone, Copy, Debug, PartialEq, Eq, Ord, Structural)]
pub enum NodeKey {
    /// A position shared by all lines that reach its board.
    GraphNode { board_hash: u64 },
    /// A position after a repetition: the rules depend on the line that led to it.
    TreeNode { board_hash: u64, rule_context_hash: u64 },
}

impl NodeKey {
    /// The node shared by all lines that reach a board.
    pub fn board(board_hash: u64) -> (r: Self)
        ensures
            r == (NodeKey::GraphNode { board_hash }),
    {
        NodeKey::GraphNode { board_hash }
    }

    /// The node that a line of play begins at, known by the hash of its position.
    pub fn root(position_hash: u64) -> (r: Self)
        ensures
            r == (NodeKey::GraphNode { board_hash: position_hash }),
    {
        NodeKey::GraphNode { board_hash: position_hash }
    }

    /// The node of a board after a repetition.
    pub fn continuation(board_hash: u64, context: u64) -> (r: Self)
        ensures
            r == (NodeKey::TreeNode { board_hash, rule_context_hash: context }),
    {
        NodeKey::TreeNode { board_hash, rule_context_hash: context }
    }

    pub open spec fn spec_board_hash(self) -> u64 {
        match self {
            NodeKey::GraphNode { board_hash } => board_hash,
            NodeKey::TreeNode { board_hash, .. } => board_hash,
        }
    }

    /// The board of the node.
    pub fn board_hash(self) -> (r: u64)
        ensures
            r == self.spec_board_hash(),
    {
        match self {
            NodeKey::GraphNode { board_hash } => board_hash,
            NodeKey::TreeNode { board_hash, .. } => board_hash,
        }
    }

    pub open spec fn spec_is_continuation(self) -> bool {
        self is TreeNode
    }

    /// Whether the rules at this node depend on the line.
    pub fn is_continuation(self) -> (r: bool)
        ensures
            r == self.spec_is_continuation(),
    {
        match self {
            NodeKey::GraphNode { .. } => false,
            NodeKey::TreeNode { .. } => true,
        }
    }

    pub open spec fn spec_for_history(
        board_hash: u64,
        did_repeat: bool,
        rule_context_hash: u64,
    ) -> NodeKey {
        if did_repeat {
            NodeKey::TreeNode { board_hash, rule_context_hash }
        } else {
            NodeKey::GraphNode { board_hash }
        }
    }

    /// The node of a line: shared by board, unless a position has repeated since the
    /// last move that cannot be undone.
    pub fn for_history(board_hash: u64, did_repeat: bool, rule_context_hash: u64) -> (r: Self)
        ensures
            r == Self::spec_for_history(board_hash, did_repeat, rule_context_hash),
    {
        if did_repeat {
            NodeKey::continuation(board_hash, rule_context_hash)
        } else {
            NodeKey::board(board_hash)
        }
    }
}

impl Default for NodeKey {
    fn default() -> (r: Self)
        ensures
            r == (NodeKey::GraphNode { board_hash: 0 }),
    {
        NodeKey::GraphNode { board_hash: 0 }
    }
}

/// How two hashes compare.
pub open spec fn hash_order(a: u64, b: u64) -> Ordering {
    if a < b {
        Ordering::Less
    } else if a > b {
        Ordering::Greater
    } else {
        Ordering::Equal
    }
}

fn compare_hashes(a: u64, b: u64) -> (r: Ordering)
    ensures
        r == hash_order(a, b),
{
    if a < b {
        Ordering::Less
    } else if a > b {
        Ordering::Greater
    } else {
        Ordering::Equal
    }
}

/// Shared nodes stand before those that depend on a line; within each kind the board
/// decides first.
impl PartialOrd for NodeKey {
    fn partial_cmp(&self, other: &NodeKey) -> (r: Option<Ordering>) {
        match (*self, *other) {
            (NodeKey::GraphNode { board_hash: a }, NodeKey::GraphNode { board_hash: b }) => Some(
                compare_hashes(a, b),
            ),
            (NodeKey::GraphNode { .. }, NodeKey::TreeNode { .. }) => Some(Ordering::Less),
            (NodeKey::TreeNode { .. }, NodeKey::GraphNode { .. }) => Some(Ordering::Greater),
            (
                NodeKey::TreeNode { board_hash: a, rule_context_hash: first },
                NodeKey::TreeNode { board_hash: b, rule_context_hash: second },
            ) => if a == b {
                Some(compare_hashes(first, second))
            } else {
                Some(compare_hashes(a, b))
            },
        }
    }
}

impl vstd::std_specs::cmp::PartialOrdSpecImpl for NodeKey {
    open spec fn obeys_partial_cmp_spec() -> bool {
        true
    }

    open spec fn partial_cmp_spec(&self, other: &NodeKey) -> Option<Ordering> {
        match (*self, *other) {
            (NodeKey::GraphNode { board_hash: a }, NodeKey::GraphNode { board_hash: b }) => Some(
                hash_order(a, b),
            ),
            (NodeKey::GraphNode { .. }, NodeKey::TreeNode { .. }) => Some(Ordering::Less),
            (NodeKey::TreeNode { .. }, NodeKey::GraphNode { .. }) => Some(Ordering::Greater),
            (
                NodeKey::TreeNode { board_hash: a, rule_context_hash: first },
                NodeKey::TreeNode { board_hash: b, rule_context_hash: second },
            ) => if a == b {
                Some(hash_order(first, second))
            } else {
                Some(hash_order(a, b))
            },
        }
    }
}

/// Root keys order as their hashes do.
pub proof fn law_root_keys_order_as_hashes(a: u64, b: u64)
    ensures
        (NodeKey::GraphNode { board_hash: a }).partial_cmp_spec(
            &(NodeKey::GraphNode { board_hash: b }),
        ) == Some(hash_order(a, b)),
{
}

/// Any two keys can be compared: equal ones and no others are neither before nor behind each
/// other, and what is before a key that is before another is before that one too.
pub proof fn law_keys_are_ordered(a: NodeKey, b: NodeKey, c: NodeKey)
    ensures
        a.partial_cmp_spec(&b) == Some(Ordering::Equal) <==> a == b,
        a.partial_cmp_spec(&b) == Some(Ordering::Less) <==> b.partial_cmp_spec(&a) == Some(
            Ordering::Greater,
        ),
        a.partial_cmp_spec(&b) == Some(Ordering::Less) && b.partial_cmp_spec(&c) == Some(
            Ordering::Less,
        ) ==> a.partial_cmp_spec(&c) == Some(Ordering::Less),
{
}

/// Lines that reach one board share its node, unless a position repeated in one of
/// them; then they share it only with lines of the same context.
pub proof fn law_keys_separate_contexts(a: u64, b: u64, first: u64, second: u64)
    ensures
        NodeKey::spec_for_history(a, false, first) == NodeKey::spec_for_history(b, false, second)
            <==> a == b,
        NodeKey::spec_for_history(a, true, first) == NodeKey::spec_for_history(b, true, second)
            <==> a == b && first == second,
        NodeKey::spec_for_history(a, true, first) != NodeKey::spec_for_history(b, false, second),
{
}

} // verus!
