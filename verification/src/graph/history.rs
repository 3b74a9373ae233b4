//! The positions of a game, with what the rules say about them.
use vstd::prelude::*;

use crate::graph::key::NodeKey;
use crate::position::{copy_positions, Position};

verus! {

/// A game up to some position. Whether a position has repeated since the last move
/// that cannot be undone, and the context that the rules then depend on, are handed in
/// with the positions.
#[derive(Debug)]
pub struct History {
    pub positions: Vec<Position>,
    pub did_repeat: bool,
    pub rule_context_hash: u64,
}

impl History {
    pub open spec fn spec_last(self) -> Position {
        self.positions@.last()
    }

    /// The node of the last position.
    pub open spec fn spec_key(self) -> NodeKey {
        NodeKey::spec_for_history(
            self.spec_last().board_hash,
            self.did_repeat,
            self.rule_context_hash,
        )
    }

    /// Whether two histories hold the same.
    pub open spec fn same_as(self, other: History) -> bool {
        self.positions@ == other.positions@ && self.did_repeat == other.did_repeat
            && self.rule_context_hash == other.rule_context_hash
    }

    pub fn len(&self) -> (r: usize)
        ensures
            r == self.positions@.len(),
    {
        self.positions.len()
    }

    /// The last position.
    pub fn last(&self) -> (r: Position)
        requires
            self.positions@.len() > 0,
        ensures
            r == self.spec_last(),
    {
        self.positions[self.positions.len() - 1]
    }

    /// The node of the last position.
    pub fn key(&self) -> (r: NodeKey)
        requires
            self.positions@.len() > 0,
        ensures
            r == self.spec_key(),
    {
        NodeKey::for_history(self.last().board_hash, self.did_repeat, self.rule_context_hash)
    }

    /// A copy of the history.
    pub fn copy(&self) -> (r: Self)
        ensures
            r.same_as(*self),
    {
        History {
            positions: copy_positions(&self.positions),
            did_repeat: self.did_repeat,
            rule_context_hash: self.rule_context_hash,
        }
    }
}

/// Whether the first list is a beginning of the second.
pub fn is_beginning_of(shorter: &Vec<Position>, longer: &Vec<Position>) -> (r: bool)
    ensures
        r == shorter@.is_prefix_of(longer@),
{
    if shorter.len() > longer.len() {
        return false;
    }
    let mut i: usize = 0;
    while i < shorter.len()
        invariant
            i <= shorter@.len() <= longer@.len(),
            forall|j: int| 0 <= j < i ==> #[trigger] shorter@[j] == longer@[j],
        decreases shorter@.len() - i,
    {
        if shorter[i] != longer[i] {
            assert(longer@.subrange(0, shorter@.len() as int)[i as int] == longer@[i as int]);
            return false;
        }
        i += 1;
    }
    assert(shorter@ =~= longer@.subrange(0, shorter@.len() as int));
    true
}

} // verus!
