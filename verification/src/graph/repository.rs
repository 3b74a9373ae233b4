//! The repository of all nodes, by key.
use vstd::prelude::*;

use crate::graph::index::{index_contents, index_get, index_insert, new_index, BoardIndex};
use crate::graph::key::NodeKey;
use crate::graph::node::{Node, NodeModel};
use crate::scalar::Scalar;

verus! {

/// A node in its place, with the place of the last older node of the same board.
#[derive(Debug)]
pub struct Slot<S> {
    pub key: NodeKey,
    pub older: Option<usize>,
    pub node: Node<S>,
}

/// All nodes of a search, by key. The boards are spread over several indexes by their
/// lowest bits.
#[derive(Debug)]
pub struct NodeRepository<S> {
    pub shards: Vec<BoardIndex>,
    pub slots: Vec<Slot<S>>,
}

/// The index that a board belongs to.
pub open spec fn shard_of(board_hash: u64, shards: nat) -> int {
    (board_hash & ((shards - 1) as u64)) as int
}

/// The place of the newest node of a board, according to the indexes.
pub open spec fn newest(shards: Seq<BoardIndex>, board_hash: u64) -> Option<usize> {
    let contents = index_contents(shards[shard_of(board_hash, shards.len())]);
    if contents.contains_key(board_hash) {
        Some(contents[board_hash])
    } else {
        None
    }
}

/// Whether `place` is that of the last node of a board among the first `count`, or
/// none where there is none.
pub open spec fn is_last_of_board<S: Scalar>(
    slots: Seq<Slot<S>>,
    count: int,
    board_hash: u64,
    place: Option<usize>,
) -> bool {
    match place {
        Some(i) => {
            &&& i < count
            &&& slots[i as int].key.spec_board_hash() == board_hash
            &&& forall|j: int|
                i < j < count ==> (#[trigger] slots[j]).key.spec_board_hash() != board_hash
        },
        None => forall|j: int|
            0 <= j < count ==> (#[trigger] slots[j]).key.spec_board_hash() != board_hash,
    }
}

/// Whether a node with this key has a place.
pub open spec fn holds<S: Scalar>(slots: Seq<Slot<S>>, key: NodeKey) -> bool {
    exists|i: int| 0 <= i < slots.len() && (#[trigger] slots[i]).key == key
}

/// The place of the node with this key.
pub open spec fn place_of<S: Scalar>(slots: Seq<Slot<S>>, key: NodeKey) -> int {
    choose|i: int| 0 <= i < slots.len() && (#[trigger] slots[i]).key == key
}

/// The nodes by key.
pub open spec fn nodes_by_key<S: Scalar>(slots: Seq<Slot<S>>) -> Map<NodeKey, NodeModel<S>> {
    Map::new(|key: NodeKey| holds(slots, key), |key: NodeKey| slots[place_of(slots, key)].node@)
}

/// Whether no key has two places.
pub open spec fn keys_differ<S: Scalar>(slots: Seq<Slot<S>>) -> bool {
    forall|i: int, j: int|
        0 <= i < j < slots.len() ==> (#[trigger] slots[i]).key != (#[trigger] slots[j]).key
}

/// Whether each node names the last older node of its board.
pub open spec fn chained<S: Scalar>(slots: Seq<Slot<S>>) -> bool {
    forall|i: int|
        0 <= i < slots.len() ==> is_last_of_board(
            slots,
            i,
            (#[trigger] slots[i]).key.spec_board_hash(),
            slots[i].older,
        )
}

/// Whether the indexes name the newest node of each board.
pub open spec fn indexed<S: Scalar>(shards: Seq<BoardIndex>, slots: Seq<Slot<S>>) -> bool {
    forall|board_hash: u64|
        is_last_of_board(
            slots,
            slots.len() as int,
            board_hash,
            #[trigger] newest(shards, board_hash),
        )
}

pub proof fn lemma_place<S: Scalar>(slots: Seq<Slot<S>>, i: int)
    requires
        keys_differ(slots),
        0 <= i < slots.len(),
    ensures
        holds(slots, slots[i].key),
        place_of(slots, slots[i].key) == i,
        nodes_by_key(slots).contains_key(slots[i].key),
        nodes_by_key(slots)[slots[i].key] == slots[i].node@,
{
    let key = slots[i].key;
    assert(slots[i].key == key);
    let p = place_of(slots, key);
    assert(0 <= p < slots.len() && slots[p].key == key);
    if p < i {
        assert(slots[p].key != slots[i].key);
    }
    if i < p {
        assert(slots[i].key != slots[p].key);
    }
}

/// Writing one node in its place changes it under its key only.
pub proof fn lemma_node_changed<S: Scalar>(before: Seq<Slot<S>>, after: Seq<Slot<S>>, i: int, node: Node<S>)
    requires
        keys_differ(before),
        0 <= i < before.len(),
        after == before.update(i, Slot { node, ..before[i] }),
    ensures
        keys_differ(after),
        nodes_by_key(after) == nodes_by_key(before).insert(before[i].key, node@),
{
    assert forall|a: int, b: int| 0 <= a < b < after.len() implies (#[trigger] after[a]).key != (
    #[trigger] after[b]).key by {
        assert(before[a].key != before[b].key);
    }
    assert forall|key: NodeKey| holds(after, key) == holds(before, key) by {
        if holds(after, key) {
            let k = choose|k: int| 0 <= k < after.len() && (#[trigger] after[k]).key == key;
            assert(before[k].key == key);
        }
        if holds(before, key) {
            let k = choose|k: int| 0 <= k < before.len() && (#[trigger] before[k]).key == key;
            assert(after[k].key == key);
        }
    }
    assert forall|key: NodeKey| holds(after, key) implies nodes_by_key(after)[key]
        == nodes_by_key(before).insert(before[i].key, node@)[key] by {
        let k = place_of(after, key);
        assert(0 <= k < after.len() && after[k].key == key);
        lemma_place(after, k);
        lemma_place(before, k);
        assert(before[k].key == key);
    }
    lemma_place(before, i);
    assert(nodes_by_key(after) =~= nodes_by_key(before).insert(before[i].key, node@));
}

/// A node with a new key stands under it, and all others where they stood.
pub proof fn lemma_node_added<S: Scalar>(before: Seq<Slot<S>>, slot: Slot<S>)
    requires
        keys_differ(before),
        !holds(before, slot.key),
    ensures
        keys_differ(before.push(slot)),
        nodes_by_key(before.push(slot)) == nodes_by_key(before).insert(slot.key, slot.node@),
{
    let after = before.push(slot);
    assert forall|a: int, b: int| 0 <= a < b < after.len() implies (#[trigger] after[a]).key != (
    #[trigger] after[b]).key by {
        assert(before[a].key == after[a].key);
        if b < before.len() {
            assert(before[a].key != before[b].key);
        }
    }
    assert forall|key: NodeKey| holds(after, key) == (holds(before, key) || key == slot.key) by {
        if holds(after, key) {
            let k = choose|k: int| 0 <= k < after.len() && (#[trigger] after[k]).key == key;
            if k < before.len() {
                assert(before[k].key == key);
            }
        }
        if holds(before, key) {
            let k = choose|k: int| 0 <= k < before.len() && (#[trigger] before[k]).key == key;
            assert(after[k].key == key);
        }
        assert(after[before.len() as int].key == slot.key);
    }
    assert forall|key: NodeKey| holds(after, key) implies nodes_by_key(after)[key]
        == nodes_by_key(before).insert(slot.key, slot.node@)[key] by {
        let k = place_of(after, key);
        assert(0 <= k < after.len() && after[k].key == key);
        lemma_place(after, k);
        if k < before.len() {
            assert(before[k].key == key);
            lemma_place(before, k);
        }
    }
    assert(nodes_by_key(after) =~= nodes_by_key(before).insert(slot.key, slot.node@));
}

impl<S: Scalar> NodeRepository<S> {
    /// The nodes by key.
    pub open spec fn view(&self) -> Map<NodeKey, NodeModel<S>> {
        nodes_by_key(self.slots@)
    }

    /// The indexes and the chains find every node, and every node is consistent.
    pub open spec fn wf(&self) -> bool {
        &&& 0 < self.shards@.len() <= u64::MAX
        &&& keys_differ(self.slots@)
        &&& chained(self.slots@)
        &&& indexed(self.shards@, self.slots@)
        &&& forall|i: int| 0 <= i < self.slots@.len() ==> (#[trigger] self.slots@[i]).node.wf()
    }

    /// A repository without nodes. The number of indexes is a power of two.
    pub fn new(shard_count: usize) -> (r: Self)
        requires
            shard_count > 0,
            shard_count & ((shard_count - 1) as usize) == 0,
        ensures
            r.wf(),
            r@ == Map::<NodeKey, NodeModel<S>>::empty(),
            r.shards@.len() == shard_count,
            r.slots@.len() == 0,
    {
        NodeRepository::with_shards(shard_count)
    }

    pub(crate) fn with_shards(shard_count: usize) -> (r: Self)
        requires
            shard_count > 0,
        ensures
            r.wf(),
            r@ == Map::<NodeKey, NodeModel<S>>::empty(),
            r.shards@.len() == shard_count,
            r.slots@.len() == 0,
    {
        let mut shards: Vec<BoardIndex> = Vec::new();
        let mut i: usize = 0;
        while i < shard_count
            invariant
                i <= shard_count,
                shards@.len() == i,
                forall|j: int|
                    0 <= j < i ==> index_contents(#[trigger] shards@[j])
                        == Map::<u64, usize>::empty(),
            decreases shard_count - i,
        {
            shards.push(new_index());
            i += 1;
        }
        let repository: Self = NodeRepository { shards, slots: Vec::new() };
        proof {
            assert forall|board_hash: u64| is_last_of_board(
                repository.slots@,
                0,
                board_hash,
                #[trigger] newest(repository.shards@, board_hash),
            ) by {
                lemma_shard_in_range(board_hash, shards@.len());
                assert(index_contents(shards@[shard_of(board_hash, shards@.len())])
                    == Map::<u64, usize>::empty());
            }
            assert(repository@ =~= Map::<NodeKey, NodeModel<S>>::empty());
        }
        repository
    }

    /// How many nodes there are.
    pub fn len(&self) -> (r: usize)
        ensures
            r == self.slots@.len(),
    {
        self.slots.len()
    }

    fn shard_index(&self, board_hash: u64) -> (r: usize)
        requires
            0 < self.shards@.len() <= u64::MAX,
        ensures
            r == shard_of(board_hash, self.shards@.len()),
            r < self.shards@.len(),
    {
        proof {
            lemma_shard_in_range(board_hash, self.shards@.len());
        }
        (board_hash & (self.shards.len() as u64 - 1)) as usize
    }

    /// The place of the node with this key.
    pub(crate) fn find(&self, key: NodeKey) -> (r: Option<usize>)
        requires
            self.wf(),
        ensures
            r is Some == self@.contains_key(key),
            r matches Some(i) ==> i < self.slots@.len() && self.slots@[i as int].key == key
                && self@[key] == self.slots@[i as int].node@,
    {
        let board_hash: u64 = key.board_hash();
        let shard: usize = self.shard_index(board_hash);
        let mut place: Option<usize> = index_get(&self.shards[shard], board_hash);
        assert(place == newest(self.shards@, board_hash));
        assert(is_last_of_board(self.slots@, self.slots@.len() as int, board_hash, place));
        while place.is_some()
            invariant
                self.wf(),
                board_hash == key.spec_board_hash(),
                place matches Some(p) ==> p < self.slots@.len()
                    && self.slots@[p as int].key.spec_board_hash() == board_hash,
                forall|j: int|
                    #![trigger self.slots@[j]]
                    0 <= j < self.slots@.len() && self.slots@[j].key == key ==> place is Some && j
                        <= place->Some_0,
            decreases (match place {
                Some(p) => p + 1,
                None => 0,
            }),
        {
            let i: usize = place.unwrap();
            if self.slots[i].key == key {
                proof {
                    lemma_place(self.slots@, i as int);
                }
                return Some(i);
            }
            place = self.slots[i].older;
            proof {
                assert(is_last_of_board(
                    self.slots@,
                    i as int,
                    self.slots@[i as int].key.spec_board_hash(),
                    self.slots@[i as int].older,
                ));
            }
        }
        None
    }

    /// The node with this key.
    pub fn get(&self, key: NodeKey) -> (r: Option<&Node<S>>)
        requires
            self.wf(),
        ensures
            r is Some == self@.contains_key(key),
            r matches Some(node) ==> node@ == self@[key] && node.wf(),
    {
        match self.find(key) {
            Some(i) => Some(&self.slots[i].node),
            None => None,
        }
    }

    /// Gives access to the node with this key.
    pub fn get_mut(&mut self, key: NodeKey) -> (r: Option<&mut Node<S>>)
        requires
            old(self).wf(),
        ensures
            r is Some == old(self)@.contains_key(key),
            r is None ==> *final(self) == *old(self),
            r matches Some(node) ==> {
                &&& node@ == old(self)@[key]
                &&& node.wf()
                &&& final(self)@ == old(self)@.insert(key, final(node)@)
                &&& (final(node).wf() ==> final(self).wf())
                &&& final(self).slots@.len() == old(self).slots@.len()
                &&& final(self).shards == old(self).shards
            },
    {
        match self.find(key) {
            Some(i) => {
                let ghost before = self.slots@;
                proof {
                    lemma_place(before, i as int);
                    lemma_write_all(self.shards@, before, i as int);
                }
                Some(&mut self.slots[i].node)
            },
            None => None,
        }
    }

    /// Gives a node with a new key a place.
    pub(crate) fn add(&mut self, key: NodeKey, node: Node<S>)
        requires
            old(self).wf(),
            !old(self)@.contains_key(key),
            node.wf(),
        ensures
            final(self).wf(),
            final(self)@ == old(self)@.insert(key, node@),
            final(self).slots@.len() == old(self).slots@.len() + 1,
            final(self).slots@.last().key == key,
            final(self).slots@.last().node == node,
            final(self).slots@.drop_last() == old(self).slots@,
            final(self).shards@.len() == old(self).shards@.len(),
    {
        let board_hash: u64 = key.board_hash();
        let shard: usize = self.shard_index(board_hash);
        let place: usize = self.slots.len();
        let older: Option<usize> = index_get(&self.shards[shard], board_hash);
        let ghost before = self.slots@;
        let ghost shards = self.shards@;
        let ghost slot = Slot { key, older, node };
        index_insert(&mut self.shards[shard], board_hash, place);
        self.slots.push(Slot { key, older, node });
        proof {
            assert(older == newest(shards, board_hash));
            assert(is_last_of_board(before, before.len() as int, board_hash, older));
            assert(self.slots@ == before.push(slot));
            lemma_node_added(before, slot);
            assert(self.shards@ == shards.update(shard as int, self.shards@[shard as int]));
            lemma_chains_grow(shards, self.shards@, before, slot);
            assert(self.slots@.drop_last() =~= before);
            assert forall|i: int| 0 <= i < self.slots@.len() implies (
            #[trigger] self.slots@[i]).node.wf() by {
                if i < before.len() {
                    assert(before[i].node.wf());
                }
            }
        }
    }

    /// Gives access to the node with this key, which is made where there is none.
    pub fn get_or_insert(&mut self, key: NodeKey) -> (r: &mut Node<S>)
        requires
            old(self).wf(),
        ensures
            r.wf(),
            if old(self)@.contains_key(key) {
                r@ == old(self)@[key]
            } else {
                r@.is_fresh()
            },
            final(self)@ == old(self)@.insert(key, final(r)@),
            final(r).wf() ==> final(self).wf(),
            final(self).shards@.len() == old(self).shards@.len(),
            final(self).slots@.len() == old(self).slots@.len() + if old(self)@.contains_key(key) {
                0int
            } else {
                1
            },
    {
        let ghost before = self@;
        match self.find(key) {
            Some(i) => {
                proof {
                    lemma_place(self.slots@, i as int);
                    lemma_write_all(self.shards@, self.slots@, i as int);
                }
                &mut self.slots[i].node
            },
            None => {
                let place: usize = self.slots.len();
                self.add(key, Node::default());
                proof {
                    let middle = self@;
                    assert(self.slots@[place as int].key == key);
                    lemma_place(self.slots@, place as int);
                    lemma_write_all(self.shards@, self.slots@, place as int);
                    assert forall|node: NodeModel<S>| #[trigger]
                        middle.insert(key, node) == before.insert(key, node) by {
                        assert(middle.insert(key, node) =~= before.insert(key, node));
                    }
                }
                &mut self.slots[place].node
            },
        }
    }

    /// Whether no visit is under way on any edge of any node.
    pub fn is_settled(&self) -> (r: bool)
        requires
            self.wf(),
        ensures
            r == (forall|key: NodeKey| #[trigger]
                self@.contains_key(key) ==> self@[key].settled()),
    {
        let mut i: usize = 0;
        while i < self.slots.len()
            invariant
                self.wf(),
                i <= self.slots@.len(),
                forall|j: int| 0 <= j < i ==> (#[trigger] self.slots@[j]).node@.settled(),
            decreases self.slots@.len() - i,
        {
            if !self.slots[i].node.is_settled() {
                proof {
                    lemma_place(self.slots@, i as int);
                    assert(self@.contains_key(self.slots@[i as int].key));
                }
                return false;
            }
            i += 1;
        }
        proof {
            assert forall|key: NodeKey| #[trigger] self@.contains_key(key) implies self@[key].settled() by {
                let k = place_of(self.slots@, key);
                assert(0 <= k < self.slots@.len() && self.slots@[k].key == key);
                assert(self.slots@[k].node@.settled());
            }
        }
        true
    }
}

impl<S: Scalar> Default for NodeRepository<S> {
    fn default() -> (r: Self)
        ensures
            r.wf(),
            r@ == Map::<NodeKey, NodeModel<S>>::empty(),
            r.slots@.len() == 0,
    {
        assert(64usize & 63usize == 0) by (bit_vector);
        NodeRepository::new(64)
    }
}

/// A new node that names the last of its board continues the chains, and the index of
/// its board now names the new node.
proof fn lemma_chains_grow<S: Scalar>(
    shards: Seq<BoardIndex>,
    grown: Seq<BoardIndex>,
    before: Seq<Slot<S>>,
    slot: Slot<S>,
)
    requires
        chained(before),
        indexed(shards, before),
        0 < shards.len() <= u64::MAX,
        before.len() <= usize::MAX,
        slot.older == newest(shards, slot.key.spec_board_hash()),
        ({
            let home = shard_of(slot.key.spec_board_hash(), shards.len());
            &&& grown == shards.update(home, grown[home])
            &&& index_contents(grown[home]) == index_contents(shards[home]).insert(
                slot.key.spec_board_hash(),
                before.len() as usize,
            )
        }),
    ensures
        chained(before.push(slot)),
        indexed(grown, before.push(slot)),
{
    let after = before.push(slot);
    let board = slot.key.spec_board_hash();
    let home = shard_of(board, shards.len());
    lemma_shard_in_range(board, shards.len());
    assert forall|count: int, board_hash: u64, place: Option<usize>|
        0 <= count <= before.len() && is_last_of_board(before, count, board_hash, place)
            implies #[trigger] is_last_of_board(after, count, board_hash, place) by {
        assert forall|j: int| 0 <= j < count implies (#[trigger] after[j]).key == before[j].key by {}
    }
    assert(is_last_of_board(before, before.len() as int, board, newest(shards, board)));
    assert forall|k: int| 0 <= k < after.len() implies is_last_of_board(
        after,
        k,
        (#[trigger] after[k]).key.spec_board_hash(),
        after[k].older,
    ) by {
        if k < before.len() {
            assert(is_last_of_board(
                before,
                k,
                before[k].key.spec_board_hash(),
                before[k].older,
            ));
        }
    }
    assert forall|board_hash: u64| is_last_of_board(
        after,
        after.len() as int,
        board_hash,
        #[trigger] newest(grown, board_hash),
    ) by {
        lemma_shard_in_range(board_hash, shards.len());
        assert(is_last_of_board(
            before,
            before.len() as int,
            board_hash,
            newest(shards, board_hash),
        ));
        if board_hash == board {
            assert(newest(grown, board) == Some(before.len() as usize));
        } else {
            assert(newest(grown, board_hash) == newest(shards, board_hash));
            assert(is_last_of_board(
                after,
                before.len() as int,
                board_hash,
                newest(shards, board_hash),
            ));
        }
    }
}

/// Whether two lists of nodes differ at most in the node at one place.
pub open spec fn differs_in_node<S: Scalar>(before: Seq<Slot<S>>, after: Seq<Slot<S>>, i: int) -> bool {
    &&& after.len() == before.len()
    &&& after == before.update(i, after[i])
    &&& after[i].key == before[i].key
    &&& after[i].older == before[i].older
}

/// Whatever is written in the place of a node, the chains and keys stay.
proof fn lemma_write_all<S: Scalar>(shards: Seq<BoardIndex>, before: Seq<Slot<S>>, i: int)
    requires
        keys_differ(before),
        chained(before),
        indexed(shards, before),
        0 <= i < before.len(),
    ensures
        forall|after: Seq<Slot<S>>|
            #![trigger nodes_by_key(after)]
            #![trigger chained(after)]
            #![trigger keys_differ(after)]
            #![trigger indexed(shards, after)]
            differs_in_node(before, after, i) ==> {
                &&& keys_differ(after)
                &&& chained(after)
                &&& indexed(shards, after)
                &&& nodes_by_key(after) == nodes_by_key(before).insert(
                    before[i].key,
                    after[i].node@,
                )
            },
{
    assert forall|after: Seq<Slot<S>>|
        #![trigger nodes_by_key(after)]
        #![trigger chained(after)]
        #![trigger keys_differ(after)]
        #![trigger indexed(shards, after)]
        differs_in_node(before, after, i) implies {
        &&& keys_differ(after)
        &&& chained(after)
        &&& indexed(shards, after)
        &&& nodes_by_key(after) == nodes_by_key(before).insert(before[i].key, after[i].node@)
    } by {
        let node = after[i].node;
        assert(after[i] == (Slot { node, ..before[i] }));
        lemma_node_changed(before, after, i, node);
        lemma_same_keys(before, after);
    }
}

/// Chains and indexes depend on keys only.
proof fn lemma_same_keys<S: Scalar>(before: Seq<Slot<S>>, after: Seq<Slot<S>>)
    requires
        chained(before),
        after.len() == before.len(),
        forall|j: int|
            0 <= j < before.len() ==> (#[trigger] after[j]).key == before[j].key && after[j].older
                == before[j].older,
    ensures
        chained(after),
        forall|shards: Seq<BoardIndex>|
            #![trigger indexed(shards, after)]
            indexed(shards, before) ==> indexed(shards, after),
{
    assert forall|count: int, board_hash: u64, place: Option<usize>|
        0 <= count <= before.len() && is_last_of_board(before, count, board_hash, place)
            implies #[trigger] is_last_of_board(after, count, board_hash, place) by {
        assert forall|j: int| 0 <= j < count implies (#[trigger] after[j]).key == before[j].key by {}
    }
    assert forall|k: int| 0 <= k < after.len() implies is_last_of_board(
        after,
        k,
        (#[trigger] after[k]).key.spec_board_hash(),
        after[k].older,
    ) by {
        assert(is_last_of_board(
            before,
            k,
            before[k].key.spec_board_hash(),
            before[k].older,
        ));
    }
    assert forall|shards: Seq<BoardIndex>|
        #![trigger indexed(shards, after)]
        indexed(shards, before) implies indexed(shards, after) by {
        assert forall|board_hash: u64| is_last_of_board(
            after,
            after.len() as int,
            board_hash,
            #[trigger] newest(shards, board_hash),
        ) by {
            assert(is_last_of_board(
                before,
                before.len() as int,
                board_hash,
                newest(shards, board_hash),
            ));
        }
    }
}

proof fn lemma_shard_in_range(board_hash: u64, shards: nat)
    requires
        0 < shards <= u64::MAX,
    ensures
        0 <= shard_of(board_hash, shards) < shards,
{
    let mask = (shards - 1) as u64;
    assert(board_hash & mask <= mask) by (bit_vector);
}

} // verus!
