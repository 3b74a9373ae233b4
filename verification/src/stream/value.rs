//! Sums of results, as they travel from a leaf to the root.
use vstd::prelude::*;

use crate::exact::{is_unrounded, lemma_quotient};
use crate::scalar::Scalar;

verus! {

/// The sum of some results, seen by the side that moved into the position.
#[derive(Clone, Copy, Debug)]
pub struct ValueDelta<S> {
    pub visits: u32,
    pub wl_sum: S,
    pub draw_sum: S,
    pub m_sum: S,
}

impl<S: Scalar> ValueDelta<S> {
    pub open spec fn spec_one(wl: S, draw: S, plies_left: S) -> Self {
        ValueDelta { visits: 1, wl_sum: wl, draw_sum: draw, m_sum: plies_left }
    }

    pub open spec fn spec_empty() -> Self {
        ValueDelta {
            visits: 0,
            wl_sum: S::spec_zero(),
            draw_sum: S::spec_zero(),
            m_sum: S::spec_zero(),
        }
    }

    pub open spec fn spec_to_parent(self) -> Self {
        ValueDelta {
            wl_sum: self.wl_sum.spec_negated(),
            m_sum: self.m_sum.spec_plus(S::spec_count(self.visits)),
            ..self
        }
    }

    pub open spec fn spec_merge(self, other: Self) -> Self {
        ValueDelta {
            visits: (self.visits + other.visits) as u32,
            wl_sum: self.wl_sum.spec_plus(other.wl_sum),
            draw_sum: self.draw_sum.spec_plus(other.draw_sum),
            m_sum: self.m_sum.spec_plus(other.m_sum),
        }
    }

    pub open spec fn spec_q(self) -> S {
        if self.visits == 0 {
            S::spec_zero()
        } else {
            self.wl_sum.spec_over(S::spec_count(self.visits))
        }
    }

    /// One result.
    pub fn one(wl: S, draw: S, plies_left: S) -> (r: Self)
        ensures
            r == Self::spec_one(wl, draw, plies_left),
    {
        ValueDelta { visits: 1, wl_sum: wl, draw_sum: draw, m_sum: plies_left }
    }

    /// The same results seen one ply further up, by the other side.
    pub fn to_parent(self) -> (r: Self)
        ensures
            r == self.spec_to_parent(),
    {
        ValueDelta {
            wl_sum: self.wl_sum.negated(),
            m_sum: self.m_sum.plus(S::count(self.visits)),
            ..self
        }
    }

    /// The results of both.
    pub fn merge(self, other: Self) -> (r: Self)
        requires
            self.visits + other.visits <= u32::MAX,
        ensures
            r == self.spec_merge(other),
    {
        ValueDelta {
            visits: self.visits + other.visits,
            wl_sum: self.wl_sum.plus(other.wl_sum),
            draw_sum: self.draw_sum.plus(other.draw_sum),
            m_sum: self.m_sum.plus(other.m_sum),
        }
    }

    /// The mean value, 0 without results.
    pub fn q(self) -> (r: S)
        ensures
            r == self.spec_q(),
    {
        if self.visits == 0 {
            S::zero()
        } else {
            self.wl_sum.over(S::count(self.visits))
        }
    }
}

impl<S: Scalar> Default for ValueDelta<S> {
    fn default() -> (r: Self)
        ensures
            r == Self::spec_empty(),
    {
        ValueDelta { visits: 0, wl_sum: S::zero(), draw_sum: S::zero(), m_sum: S::zero() }
    }
}

/// Where nothing is rounded, results that are merged have the mean of all their visits.
pub proof fn law_merged_results_have_the_common_mean<S: Scalar>(
    value: spec_fn(S) -> real,
    a: ValueDelta<S>,
    b: ValueDelta<S>,
    r: ValueDelta<S>,
    mean_a: S,
    mean_b: S,
    mean: S,
)
    requires
        is_unrounded(value),
        a.visits > 0,
        b.visits > 0,
        a.visits + b.visits <= u32::MAX,
        call_ensures(ValueDelta::<S>::merge, (a, b), r),
        call_ensures(ValueDelta::<S>::q, (a,), mean_a),
        call_ensures(ValueDelta::<S>::q, (b,), mean_b),
        call_ensures(ValueDelta::<S>::q, (r,), mean),
    ensures
        r.visits == a.visits + b.visits,
        value(mean) * (r.visits as real) == value(mean_a) * (a.visits as real) + value(mean_b) * (
        b.visits as real),
        value(r.draw_sum) == value(a.draw_sum) + value(b.draw_sum),
        value(r.m_sum) == value(a.m_sum) + value(b.m_sum),
{
    lemma_quotient(value, a.wl_sum, S::spec_count(a.visits));
    lemma_quotient(value, b.wl_sum, S::spec_count(b.visits));
    lemma_quotient(value, r.wl_sum, S::spec_count(r.visits));
}

/// Where nothing is rounded, results seen one ply further up have the opposite mean, as many
/// draws, and one ply more to go for each visit.
pub proof fn law_parent_sees_the_opposite_mean<S: Scalar>(
    value: spec_fn(S) -> real,
    a: ValueDelta<S>,
    up: ValueDelta<S>,
    mean: S,
    opposite: S,
)
    requires
        is_unrounded(value),
        call_ensures(ValueDelta::<S>::to_parent, (a,), up),
        call_ensures(ValueDelta::<S>::q, (a,), mean),
        call_ensures(ValueDelta::<S>::q, (up,), opposite),
    ensures
        up.visits == a.visits,
        up.draw_sum == a.draw_sum,
        value(opposite) == -value(mean),
        value(up.m_sum) == value(a.m_sum) + (a.visits as real),
        a.visits == 0 ==> value(mean) == 0real,
{
    if a.visits > 0 {
        let n = S::spec_count(a.visits);
        lemma_quotient(value, a.wl_sum, n);
        lemma_quotient(value, up.wl_sum, n);
        let (x, y, k) = (value(mean), value(opposite), a.visits as real);
        assert(y == -x) by (nonlinear_arith)
            requires
                y * k == -(x * k),
                k > 0real,
        ;
    }
}

} // verus!
