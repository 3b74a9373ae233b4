//! Ordering a list by a comparison.
use vstd::prelude::*;

verus! {

/// Each entry stands before the next by right: it is better, or the next one is
/// not better.
pub open spec fn ranked_by<T>(items: Seq<T>, better: spec_fn(T, T) -> bool) -> bool {
    forall|i: int|
        0 <= i < items.len() - 1 ==> better(#[trigger] items[i], items[i + 1]) || !better(
            items[i + 1],
            items[i],
        )
}

/// Where the comparison is a strict order whose incomparability is transitive,
/// no entry of a ranked list is better than one that stands before it.
pub proof fn law_ranked_pairwise<T>(
    items: Seq<T>,
    better: spec_fn(T, T) -> bool,
    i: int,
    j: int,
)
    requires
        ranked_by(items, better),
        forall|a: T, b: T| #[trigger] better(a, b) ==> !better(b, a),
        forall|a: T, b: T, c: T| !#[trigger] better(b, a) && !#[trigger] better(c, b) ==> !better(c, a),
        0 <= i < j < items.len(),
    ensures
        !better(items[j], items[i]),
    decreases j - i,
{
    if i + 1 < j {
        law_ranked_pairwise(items, better, i + 1, j);
    }
    assert(better(items[i], items[i + 1]) || !better(items[i + 1], items[i]));
}

/// A comparison by which a list can be sorted.
pub trait Comparison<T> {
    /// Whether two entries can be compared.
    spec fn can_compare(&self, a: T, b: T) -> bool;

    /// Whether the first entry is better than the second.
    spec fn spec_is_better(&self, a: T, b: T) -> bool;

    /// Whether the first entry is better than the second.
    fn is_better(&self, a: T, b: T) -> (r: bool)
        requires
            self.can_compare(a, b),
        ensures
            r == self.spec_is_better(a, b),
    ;
}

/// Sorts a list so that better entries come first.
pub(crate) fn sort_by<T: Copy, C: Comparison<T>>(items: &Vec<T>, order: &C) -> (out: Vec<T>)
    requires
        forall|a: T, b: T| items@.contains(a) && items@.contains(b) ==> #[trigger] order.can_compare(a, b),
    ensures
        out@.to_multiset() == items@.to_multiset(),
        out@.len() == items@.len(),
        forall|x: T| out@.contains(x) <==> items@.contains(x),
        ranked_by(out@, |a: T, b: T| order.spec_is_better(a, b)),
{
    let ghost rank = |a: T, b: T| order.spec_is_better(a, b);
    let mut out: Vec<T> = Vec::new();
    let mut i: usize = 0;
    proof {
        assert(items@.take(0) =~= Seq::<T>::empty());
    }
    while i < items.len()
        invariant
            i <= items.len(),
            out@.len() == i,
            out@.to_multiset() == items@.take(i as int).to_multiset(),
            forall|x: T| out@.contains(x) ==> items@.contains(x),
            ranked_by(out@, rank),
            forall|a: T, b: T| items@.contains(a) && items@.contains(b) ==> #[trigger] order.can_compare(a, b),
            rank == (|a: T, b: T| order.spec_is_better(a, b)),
        decreases items.len() - i,
    {
        let item: T = items[i];
        assert(items@.contains(item));
        let mut place: usize = out.len();
        let mut going: bool = true;
        while going && place > 0
            invariant
                place <= out@.len(),
                items@.contains(item),
                forall|x: T| out@.contains(x) ==> items@.contains(x),
                place < out@.len() ==> rank(item, out@[place as int]),
                !going ==> place > 0 && !rank(item, out@[place - 1]),
                forall|a: T, b: T| items@.contains(a) && items@.contains(b) ==> #[trigger] order.can_compare(a, b),
                rank == (|a: T, b: T| order.spec_is_better(a, b)),
            decreases place + (if going { 1int } else { 0 }),
        {
            let before: T = out[place - 1];
            assert(out@.contains(before));
            if order.is_better(item, before) {
                place = place - 1;
            } else {
                going = false;
            }
        }
        let ghost prior = out@;
        out.insert(place, item);
        i += 1;
        proof {
            broadcast use vstd::seq_lib::group_to_multiset_ensures;
            assert(items@.take(i as int) =~= items@.take(i - 1).push(item));
            assert(out@ == prior.insert(place as int, item));
            assert forall|x: T| out@.contains(x) implies items@.contains(x) by {
                let k = choose|k: int| 0 <= k < out@.len() && out@[k] == x;
                if k < place {
                    assert(prior[k] == x);
                } else if k > place {
                    assert(prior[k - 1] == x);
                }
            }
            assert forall|k: int| 0 <= k < out@.len() - 1 implies rank(#[trigger] out@[k], out@[k + 1])
                || !rank(out@[k + 1], out@[k]) by {
                if k + 1 < place {
                    assert(prior[k] == out@[k] && prior[k + 1] == out@[k + 1]);
                } else if k > place {
                    assert(prior[k - 1] == out@[k] && prior[k] == out@[k + 1]);
                }
            }
        }
    }
    proof {
        broadcast use vstd::seq_lib::group_to_multiset_ensures;
        assert(items@.take(i as int) =~= items@);
        assert forall|x: T| out@.contains(x) <==> items@.contains(x) by {
            assert(out@.contains(x) <==> out@.to_multiset().count(x) > 0);
            assert(items@.contains(x) <==> items@.to_multiset().count(x) > 0);
        }
    }
    out
}

} // verus!
