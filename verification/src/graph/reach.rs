//! Which nodes can be reached from which, and why no node can be reached from itself.
use vstd::prelude::*;

use crate::graph::key::NodeKey;
use crate::graph::node::NodeModel;
use crate::graph::repository::{holds, lemma_place, place_of, NodeRepository, Slot};
use crate::scalar::Scalar;
use crate::sums::{lemma_sum_bounds, lemma_sum_update, sum_by};

verus! {

/// Whether an edge of one node is bound to the other.
pub open spec fn linked<S: Scalar>(nodes: Map<NodeKey, NodeModel<S>>, from: NodeKey, to: NodeKey) -> bool {
    nodes.contains_key(from) && exists|e: int|
        0 <= e < nodes[from].edges.len() && (#[trigger] nodes[from].edges[e]).child_key == Some(
            to,
        )
}

/// A walk along bound edges.
pub open spec fn is_path<S: Scalar>(nodes: Map<NodeKey, NodeModel<S>>, path: Seq<NodeKey>) -> bool {
    &&& path.len() > 0
    &&& forall|i: int| 0 <= i < path.len() - 1 ==> linked(nodes, #[trigger] path[i], path[i + 1])
}

/// Whether a walk leads from one node to the other. Every node reaches itself.
pub open spec fn reaches<S: Scalar>(nodes: Map<NodeKey, NodeModel<S>>, from: NodeKey, to: NodeKey) -> bool {
    exists|path: Seq<NodeKey>| #[trigger]
        is_path(nodes, path) && path[0] == from && path.last() == to
}

/// Whether no walk leads back to where it began.
pub open spec fn acyclic<S: Scalar>(nodes: Map<NodeKey, NodeModel<S>>) -> bool {
    forall|path: Seq<NodeKey>| #[trigger]
        is_path(nodes, path) && path.len() > 1 ==> path[0] != path.last()
}

pub proof fn lemma_reaches_itself<S: Scalar>(nodes: Map<NodeKey, NodeModel<S>>, key: NodeKey)
    ensures
        reaches(nodes, key, key),
{
    assert(is_path(nodes, seq![key]));
}

pub proof fn lemma_one_further<S: Scalar>(
    nodes: Map<NodeKey, NodeModel<S>>,
    from: NodeKey,
    middle: NodeKey,
    to: NodeKey,
)
    requires
        reaches(nodes, from, middle),
        linked(nodes, middle, to),
    ensures
        reaches(nodes, from, to),
{
    let path = choose|path: Seq<NodeKey>| #[trigger]
        is_path(nodes, path) && path[0] == from && path.last() == middle;
    let longer = path.push(to);
    assert forall|i: int| 0 <= i < longer.len() - 1 implies linked(
        nodes,
        #[trigger] longer[i],
        longer[i + 1],
    ) by {
        if i < path.len() - 1 {
            assert(linked(nodes, path[i], path[i + 1]));
        }
    }
    assert(is_path(nodes, longer));
}

/// A node that is not there leads nowhere.
pub proof fn lemma_absent_reaches_itself_only<S: Scalar>(
    nodes: Map<NodeKey, NodeModel<S>>,
    from: NodeKey,
    to: NodeKey,
)
    requires
        !nodes.contains_key(from),
        reaches(nodes, from, to),
    ensures
        from == to,
{
    let path = choose|path: Seq<NodeKey>| #[trigger]
        is_path(nodes, path) && path[0] == from && path.last() == to;
    if path.len() > 1 {
        assert(linked(nodes, path[0], path[1]));
    }
}

/// A graph without more links than one without cycles has none.
pub proof fn lemma_fewer_links<S: Scalar>(before: Map<NodeKey, NodeModel<S>>, after: Map<NodeKey, NodeModel<S>>)
    requires
        acyclic(before),
        forall|a: NodeKey, b: NodeKey| #[trigger] linked(after, a, b) ==> linked(before, a, b),
    ensures
        acyclic(after),
{
    assert forall|path: Seq<NodeKey>| #[trigger]
        is_path(after, path) && path.len() > 1 implies path[0] != path.last() by {
        assert forall|i: int| 0 <= i < path.len() - 1 implies linked(
            before,
            #[trigger] path[i],
            path[i + 1],
        ) by {
            assert(linked(after, path[i], path[i + 1]));
        }
        assert(is_path(before, path));
    }
}

/// Walks from the end of a new link never use it, where it closes no cycle.
proof fn lemma_new_link_unused<S: Scalar>(
    before: Map<NodeKey, NodeModel<S>>,
    after: Map<NodeKey, NodeModel<S>>,
    parent: NodeKey,
    child: NodeKey,
    path: Seq<NodeKey>,
    k: int,
)
    requires
        forall|a: NodeKey, b: NodeKey| #[trigger]
            linked(after, a, b) ==> linked(before, a, b) || (a == parent && b == child),
        !reaches(before, child, parent),
        is_path(after, path),
        path[0] == child,
        0 <= k < path.len(),
    ensures
        reaches(before, child, path[k]),
    decreases k,
{
    if k == 0 {
        lemma_reaches_itself(before, child);
    } else {
        lemma_new_link_unused(before, after, parent, child, path, k - 1);
        assert(linked(after, path[k - 1], path[k - 1 + 1]));
        lemma_one_further(before, child, path[k - 1], path[k]);
    }
}

/// Linking a node to one that does not reach it keeps the graph without cycles.
pub proof fn law_linking_keeps_the_graph_acyclic<S: Scalar>(
    before: Map<NodeKey, NodeModel<S>>,
    after: Map<NodeKey, NodeModel<S>>,
    parent: NodeKey,
    child: NodeKey,
)
    requires
        acyclic(before),
        forall|a: NodeKey, b: NodeKey| #[trigger]
            linked(after, a, b) ==> linked(before, a, b) || (a == parent && b == child),
        !reaches(before, child, parent),
    ensures
        acyclic(after),
{
    assert forall|path: Seq<NodeKey>| #[trigger]
        is_path(after, path) && path.len() > 1 implies path[0] != path.last() by {
        if path[0] == path.last() {
            if forall|i: int|
                0 <= i < path.len() - 1 ==> linked(before, #[trigger] path[i], path[i + 1]) {
                assert(is_path(before, path));
                assert(false);
            }
            let k = choose|k: int|
                0 <= k < path.len() - 1 && !linked(before, #[trigger] path[k], path[k + 1]);
            assert(linked(after, path[k], path[k + 1]));
            assert(path[k] == parent && path[k + 1] == child);
            let n = path.len() as int;
            let turn = path.subrange(k + 1, n) + path.subrange(1, k + 1);
            assert forall|i: int| 0 <= i < turn.len() - 1 implies linked(
                after,
                #[trigger] turn[i],
                turn[i + 1],
            ) by {
                let tail = n - k - 1;
                if i + 1 < tail {
                    assert(turn[i] == path[k + 1 + i] && turn[i + 1] == path[k + 1 + i + 1]);
                    assert(linked(after, path[k + 1 + i], path[k + 1 + i + 1]));
                } else if i + 1 == tail {
                    assert(turn[i] == path[n - 1] && turn[i + 1] == path[1]);
                    assert(linked(after, path[0], path[0int + 1]));
                } else {
                    let j = i - tail + 1;
                    assert(turn[i] == path[j] && turn[i + 1] == path[j + 1]);
                    assert(linked(after, path[j], path[j + 1]));
                }
            }
            assert(is_path(after, turn));
            assert(turn[0] == child);
            lemma_new_link_unused(before, after, parent, child, turn, turn.len() - 1);
            if k == 0 {
                assert(turn.last() == path[n - 1]);
            } else {
                assert(turn.last() == path[k]);
            }
            assert(turn.last() == parent);
            assert(false);
        }
    }
}

/// How many places have not been seen.
pub open spec fn unseen(seen: Seq<bool>) -> int {
    sum_by(
        seen,
        |mark: bool|
            if mark {
                0
            } else {
                1
            },
    )
}

proof fn lemma_seen_once_more(seen: Seq<bool>, i: int)
    requires
        0 <= i < seen.len(),
        !seen[i],
    ensures
        0 <= unseen(seen.update(i, true)) < unseen(seen),
{
    let f = |mark: bool|
        if mark {
            0int
        } else {
            1
        };
    lemma_sum_update(seen, i, true, f);
    lemma_sum_bounds(seen.update(i, true), f);
}

/// Whether a key needs no further look: it is not the one looked for, and its node, if
/// there is one, has been seen.
spec fn is_done<S: Scalar>(
    slots: Seq<Slot<S>>,
    seen: Seq<bool>,
    target: Option<NodeKey>,
    key: NodeKey,
) -> bool {
    target != Some(key) && forall|j: int|
        0 <= j < slots.len() && (#[trigger] slots[j]).key == key ==> seen[j]
}

/// Whether the first `count` edges of a seen node lead to keys that are done or pending.
spec fn is_followed<S: Scalar>(
    slots: Seq<Slot<S>>,
    seen: Seq<bool>,
    target: Option<NodeKey>,
    pending: Seq<NodeKey>,
    i: int,
    count: int,
) -> bool {
    forall|e: int|
        0 <= e < count ==> ((#[trigger] slots[i].node.edges@[e]).child_key matches Some(c) ==> is_done(
            slots,
            seen,
            target,
            c,
        ) || pending.contains(c))
}

proof fn lemma_all_done<S: Scalar>(
    nodes: Map<NodeKey, NodeModel<S>>,
    slots: Seq<Slot<S>>,
    seen: Seq<bool>,
    target: Option<NodeKey>,
    path: Seq<NodeKey>,
    k: int,
)
    requires
        nodes == crate::graph::repository::nodes_by_key(slots),
        crate::graph::repository::keys_differ(slots),
        forall|i: int|
            0 <= i < slots.len() && seen[i] ==> is_followed(
                slots,
                seen,
                target,
                Seq::empty(),
                i,
                (#[trigger] slots[i]).node.edges@.len() as int,
            ),
        is_path(nodes, path),
        is_done(slots, seen, target, path[0]),
        0 <= k < path.len(),
    ensures
        is_done(slots, seen, target, path[k]),
    decreases k,
{
    if k > 0 {
        lemma_all_done(nodes, slots, seen, target, path, k - 1);
        assert(linked(nodes, path[k - 1], path[k - 1 + 1]));
        let key = path[k - 1];
        let i = place_of(slots, key);
        assert(holds(slots, key));
        assert(0 <= i < slots.len() && slots[i].key == key);
        assert(seen[i]);
        let e = choose|e: int|
            0 <= e < nodes[key].edges.len() && (#[trigger] nodes[key].edges[e]).child_key == Some(
                path[k],
            );
        assert(nodes[key] == slots[i].node@);
        assert(is_followed(
            slots,
            seen,
            target,
            Seq::empty(),
            i,
            slots[i].node.edges@.len() as int,
        ));
        assert(slots[i].node.edges@[e].child_key == Some(path[k]));
        assert(!Seq::<NodeKey>::empty().contains(path[k]));
    }
}

impl<S: Scalar> NodeRepository<S> {
    /// Walks along bound edges from a key until it meets the key looked for, and marks
    /// the nodes that it sees.
    pub(crate) fn explore(&self, from: NodeKey, target: Option<NodeKey>) -> (r: (bool, Vec<bool>))
        requires
            self.wf(),
        ensures
            r.0 ==> target is Some,
            target matches Some(key) ==> r.0 == reaches(self@, from, key),
            r.1@.len() == self.slots@.len(),
            !r.0 ==> forall|i: int|
                0 <= i < self.slots@.len() ==> r.1@[i] == reaches(
                    self@,
                    from,
                    (#[trigger] self.slots@[i]).key,
                ),
    {
        let ghost slots = self.slots@;
        let ghost nodes = self@;
        let mut seen: Vec<bool> = Vec::new();
        let mut n: usize = 0;
        while n < self.slots.len()
            invariant
                n <= self.slots@.len(),
                seen@.len() == n,
                forall|j: int| 0 <= j < n ==> !#[trigger] seen@[j],
            decreases self.slots@.len() - n,
        {
            seen.push(false);
            n += 1;
        }
        let mut pending: Vec<NodeKey> = Vec::new();
        pending.push(from);
        proof {
            lemma_reaches_itself(nodes, from);
            assert(pending@[0] == from);
            assert(pending@.contains(from));
        }
        while pending.len() > 0
            invariant
                self.wf(),
                slots == self.slots@,
                nodes == self@,
                seen@.len() == slots.len(),
                forall|p: int|
                    0 <= p < pending@.len() ==> reaches(nodes, from, #[trigger] pending@[p]),
                forall|i: int|
                    0 <= i < slots.len() && seen@[i] ==> reaches(
                        nodes,
                        from,
                        (#[trigger] slots[i]).key,
                    ),
                forall|i: int|
                    0 <= i < slots.len() && seen@[i] ==> is_followed(
                        slots,
                        seen@,
                        target,
                        pending@,
                        i,
                        (#[trigger] slots[i]).node.edges@.len() as int,
                    ),
                is_done(slots, seen@, target, from) || pending@.contains(from),
            decreases unseen(seen@), pending@.len(),
        {
            let ghost queue = pending@;
            let ghost marks = seen@;
            let key: NodeKey = pending.pop().unwrap();
            assert(queue[queue.len() - 1] == key);
            assert(reaches(nodes, from, key));
            assert(forall|c: NodeKey| #[trigger]
                queue.contains(c) ==> c == key || pending@.contains(c)) by {
                assert forall|c: NodeKey| #[trigger] queue.contains(c) implies c == key
                    || pending@.contains(c) by {
                    let p = choose|p: int| 0 <= p < queue.len() && queue[p] == c;
                    if p < queue.len() - 1 {
                        assert(pending@[p] == c);
                    }
                }
            }
            assert forall|p: int| 0 <= p < pending@.len() implies reaches(
                nodes,
                from,
                #[trigger] pending@[p],
            ) by {
                assert(queue[p] == pending@[p]);
            }
            match target {
                Some(wanted) => {
                    if key == wanted {
                        return (true, seen);
                    }
                },
                None => {},
            }
            match self.find(key) {
                Some(i) => {
                    assert(nodes[key] == slots[i as int].node@);
                    if !seen[i] {
                        proof {
                            lemma_seen_once_more(marks, i as int);
                        }
                        seen.set(i, true);
                        let ghost rest = pending@;
                        proof {
                            lemma_marked(slots, marks, seen@, target, queue, rest, key, i as int, from);
                        }
                        let edge_count: usize = self.slots[i].node.edges.len();
                        let mut e: usize = 0;
                        while e < edge_count
                            invariant
                                self.wf(),
                                slots == self.slots@,
                                nodes == self@,
                                i < slots.len(),
                                slots[i as int].key == key,
                                nodes.contains_key(key),
                                nodes[key] == slots[i as int].node@,
                                reaches(nodes, from, key),
                                seen@.len() == slots.len(),
                                edge_count == slots[i as int].node.edges@.len(),
                                e <= edge_count,
                                forall|p: int|
                                    0 <= p < pending@.len() ==> reaches(
                                        nodes,
                                        from,
                                        #[trigger] pending@[p],
                                    ),
                                forall|j: int|
                                    0 <= j < slots.len() && seen@[j] && j != i ==> is_followed(
                                        slots,
                                        seen@,
                                        target,
                                        pending@,
                                        j,
                                        (#[trigger] slots[j]).node.edges@.len() as int,
                                    ),
                                is_followed(slots, seen@, target, pending@, i as int, e as int),
                                is_done(slots, seen@, target, from) || pending@.contains(from),
                            decreases edge_count - e,
                        {
                            let ghost queue = pending@;
                            match self.slots[i].node.edges[e].child_key() {
                                Some(child) => {
                                    proof {
                                        assert(nodes[key].edges[e as int].child_key == Some(
                                            child,
                                        ));
                                        assert(linked(nodes, key, child));
                                        lemma_one_further(nodes, from, key, child);
                                    }
                                    pending.push(child);
                                    proof {
                                        assert forall|c: NodeKey| #[trigger]
                                            queue.contains(c) implies pending@.contains(c) by {
                                            let p = choose|p: int|
                                                0 <= p < queue.len() && queue[p] == c;
                                            assert(pending@[p] == c);
                                        }
                                        assert(pending@[queue.len() as int] == child);
                                        assert(pending@.contains(child));
                                    }
                                },
                                None => {},
                            }
                            proof {
                                assert forall|j: int|
                                    0 <= j < slots.len() && seen@[j] && j
                                        != i implies is_followed(
                                    slots,
                                    seen@,
                                    target,
                                    pending@,
                                    j,
                                    (#[trigger] slots[j]).node.edges@.len() as int,
                                ) by {
                                    assert(is_followed(
                                        slots,
                                        seen@,
                                        target,
                                        queue,
                                        j,
                                        slots[j].node.edges@.len() as int,
                                    ));
                                }
                                assert(is_followed(
                                    slots,
                                    seen@,
                                    target,
                                    queue,
                                    i as int,
                                    e as int,
                                ));
                            }
                            e += 1;
                        }
                    } else {
                        proof {
                            assert(is_done(slots, seen@, target, key)) by {
                                assert forall|j: int|
                                    0 <= j < slots.len() && (#[trigger] slots[j]).key
                                        == key implies seen@[j] by {
                                    lemma_place(slots, j);
                                    lemma_place(slots, i as int);
                                }
                            }
                            lemma_popped(slots, seen@, target, queue, pending@, key, from);
                        }
                    }
                },
                None => {
                    proof {
                        assert(is_done(slots, seen@, target, key)) by {
                            assert forall|j: int|
                                0 <= j < slots.len() && (#[trigger] slots[j]).key
                                    == key implies seen@[j] by {
                                lemma_place(slots, j);
                            }
                        }
                        lemma_popped(slots, seen@, target, queue, pending@, key, from);
                    }
                },
            }
        }
        proof {
            assert(pending@ =~= Seq::empty());
            assert(is_done(slots, seen@, target, from));
            assert forall|to: NodeKey| reaches(nodes, from, to) implies #[trigger] is_done(
                slots,
                seen@,
                target,
                to,
            ) by {
                let path = choose|path: Seq<NodeKey>| #[trigger]
                    is_path(nodes, path) && path[0] == from && path.last() == to;
                lemma_all_done(nodes, slots, seen@, target, path, path.len() - 1);
            }
            assert forall|i: int| 0 <= i < slots.len() implies seen@[i] == reaches(
                nodes,
                from,
                (#[trigger] slots[i]).key,
            ) by {
                if reaches(nodes, from, slots[i].key) {
                    assert(is_done(slots, seen@, target, slots[i].key));
                }
            }
            if target is Some && reaches(nodes, from, target->Some_0) {
                assert(is_done(slots, seen@, target, target->Some_0));
            }
        }
        (false, seen)
    }

    /// Whether a walk along bound edges leads from one node to the other.
    pub fn reaches(&self, from: NodeKey, target: NodeKey) -> (r: bool)
        requires
            self.wf(),
        ensures
            r == reaches(self@, from, target),
    {
        self.explore(from, Some(target)).0
    }
}

/// A key that was pending and is done needs to be pending no longer.
proof fn lemma_popped<S: Scalar>(
    slots: Seq<Slot<S>>,
    seen: Seq<bool>,
    target: Option<NodeKey>,
    queue: Seq<NodeKey>,
    rest: Seq<NodeKey>,
    key: NodeKey,
    from: NodeKey,
)
    requires
        is_done(slots, seen, target, key),
        forall|c: NodeKey| #[trigger] queue.contains(c) ==> c == key || rest.contains(c),
        forall|i: int|
            0 <= i < slots.len() && seen[i] ==> is_followed(
                slots,
                seen,
                target,
                queue,
                i,
                (#[trigger] slots[i]).node.edges@.len() as int,
            ),
        is_done(slots, seen, target, from) || queue.contains(from),
    ensures
        forall|i: int|
            0 <= i < slots.len() && seen[i] ==> is_followed(
                slots,
                seen,
                target,
                rest,
                i,
                (#[trigger] slots[i]).node.edges@.len() as int,
            ),
        is_done(slots, seen, target, from) || rest.contains(from),
{
    assert forall|i: int| 0 <= i < slots.len() && seen[i] implies is_followed(
        slots,
        seen,
        target,
        rest,
        i,
        (#[trigger] slots[i]).node.edges@.len() as int,
    ) by {
        assert(is_followed(
            slots,
            seen,
            target,
            queue,
            i,
            slots[i].node.edges@.len() as int,
        ));
    }
}

/// Marking the node of a key that was pending makes the key done.
proof fn lemma_marked<S: Scalar>(
    slots: Seq<Slot<S>>,
    before: Seq<bool>,
    seen: Seq<bool>,
    target: Option<NodeKey>,
    queue: Seq<NodeKey>,
    rest: Seq<NodeKey>,
    key: NodeKey,
    place: int,
    from: NodeKey,
)
    requires
        crate::graph::repository::keys_differ(slots),
        0 <= place < slots.len(),
        before.len() == slots.len(),
        slots[place].key == key,
        seen == before.update(place, true),
        target != Some(key),
        forall|c: NodeKey| #[trigger] queue.contains(c) ==> c == key || rest.contains(c),
        forall|i: int|
            0 <= i < slots.len() && before[i] ==> is_followed(
                slots,
                before,
                target,
                queue,
                i,
                (#[trigger] slots[i]).node.edges@.len() as int,
            ),
        is_done(slots, before, target, from) || queue.contains(from),
    ensures
        forall|i: int|
            0 <= i < slots.len() && seen[i] && i != place ==> is_followed(
                slots,
                seen,
                target,
                rest,
                i,
                (#[trigger] slots[i]).node.edges@.len() as int,
            ),
        is_done(slots, seen, target, from) || rest.contains(from),
{
    assert(is_done(slots, seen, target, key)) by {
        assert forall|j: int| 0 <= j < slots.len() && (#[trigger] slots[j]).key == key implies seen[j] by {
            lemma_place(slots, j);
            lemma_place(slots, place);
        }
    }
    assert forall|c: NodeKey| is_done(slots, before, target, c) implies #[trigger] is_done(
        slots,
        seen,
        target,
        c,
    ) by {
        assert forall|j: int| 0 <= j < slots.len() && (#[trigger] slots[j]).key == c implies seen[j] by {
            assert(before[j]);
        }
    }
    assert forall|i: int| 0 <= i < slots.len() && seen[i] && i != place implies is_followed(
        slots,
        seen,
        target,
        rest,
        i,
        (#[trigger] slots[i]).node.edges@.len() as int,
    ) by {
        assert(before[i]);
        assert(is_followed(
            slots,
            before,
            target,
            queue,
            i,
            slots[i].node.edges@.len() as int,
        ));
    }
}

} // verus!
