//! Sums over the entries of a list.
use vstd::prelude::*;

verus! {

/// The sum of a measure over all entries.
pub open spec fn sum_by<T>(items: Seq<T>, f: spec_fn(T) -> int) -> int
    decreases items.len(),
{
    if items.len() == 0 {
        0
    } else {
        sum_by(items.drop_last(), f) + f(items.last())
    }
}

/// Two measures that agree on all entries have the same sum.
pub proof fn lemma_sum_same<T>(items: Seq<T>, f: spec_fn(T) -> int, g: spec_fn(T) -> int)
    requires
        forall|i: int| 0 <= i < items.len() ==> f(#[trigger] items[i]) == g(items[i]),
    ensures
        sum_by(items, f) == sum_by(items, g),
    decreases items.len(),
{
    if items.len() > 0 {
        let rest = items.drop_last();
        assert forall|i: int| 0 <= i < rest.len() implies f(#[trigger] rest[i]) == g(rest[i]) by {
            assert(rest[i] == items[i]);
        }
        lemma_sum_same(rest, f, g);
        assert(items.last() == items[items.len() - 1]);
    }
}

/// Taking one entry out takes its measure out of the sum.
pub proof fn lemma_sum_remove<T>(items: Seq<T>, i: int, f: spec_fn(T) -> int)
    requires
        0 <= i < items.len(),
    ensures
        sum_by(items.remove(i), f) == sum_by(items, f) - f(items[i]),
    decreases items.len(),
{
    let last = items.len() - 1;
    if i == last {
        assert(items.remove(i) =~= items.drop_last());
    } else {
        lemma_sum_remove(items.drop_last(), i, f);
        assert(items.remove(i).drop_last() =~= items.drop_last().remove(i));
        assert(items.remove(i).last() == items.last());
    }
}

/// A sum of measures that are not negative is at least that of any entry.
pub proof fn lemma_sum_bounds<T>(items: Seq<T>, f: spec_fn(T) -> int)
    requires
        forall|i: int| 0 <= i < items.len() ==> f(#[trigger] items[i]) >= 0,
    ensures
        sum_by(items, f) >= 0,
        forall|i: int| 0 <= i < items.len() ==> f(#[trigger] items[i]) <= sum_by(items, f),
    decreases items.len(),
{
    if items.len() > 0 {
        let rest = items.drop_last();
        assert forall|i: int| 0 <= i < rest.len() implies f(#[trigger] rest[i]) >= 0 by {
            assert(rest[i] == items[i]);
        }
        lemma_sum_bounds(rest, f);
        assert(items.last() == items[items.len() - 1]);
        assert forall|i: int| 0 <= i < items.len() implies f(#[trigger] items[i]) <= sum_by(items, f) by {
            if i < rest.len() {
                assert(rest[i] == items[i]);
            }
        }
    }
}

/// Changing one entry changes the sum by the difference.
pub proof fn lemma_sum_update<T>(items: Seq<T>, i: int, item: T, f: spec_fn(T) -> int)
    requires
        0 <= i < items.len(),
    ensures
        sum_by(items.update(i, item), f) == sum_by(items, f) - f(items[i]) + f(item),
    decreases items.len(),
{
    let last = items.len() - 1;
    if i == last {
        assert(items.update(i, item).drop_last() =~= items.drop_last());
    } else {
        lemma_sum_update(items.drop_last(), i, item, f);
        assert(items.update(i, item).drop_last() =~= items.drop_last().update(i, item));
        assert(items.update(i, item).last() == items.last());
    }
}

} // verus!
