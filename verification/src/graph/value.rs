//! Sums of results, as they travel from a leaf to the root.
use vstd::prelude::*;

use crate::exact::{is_unrounded, lemma_quotient};
use crate::scalar::{within, Scalar};

verus! {

/// The sum of some visits' results, seen by the side that moved into the position.
#[derive(Clone, Copy, Debug)]
pub struct ValueDelta<S> {
    pub visits: u32,
    pub wl_sum: S,
    /// The sum of the squares of the values.
    pub wl_sq_sum: S,
    pub draw_sum: S,
    pub m_sum: S,
}

/// Whether a number can be a value: it lies between a loss and a win.
pub open spec fn is_value<S: Scalar>(wl: S) -> bool {
    within(S::spec_one().spec_negated(), wl, S::spec_one())
}

/// Whether a number can be a share: it lies between nothing and all.
pub open spec fn is_share<S: Scalar>(x: S) -> bool {
    within(S::spec_zero(), x, S::spec_one())
}

impl<S: Scalar> ValueDelta<S> {
    pub open spec fn spec_empty() -> Self {
        ValueDelta {
            visits: 0,
            wl_sum: S::spec_zero(),
            wl_sq_sum: S::spec_zero(),
            draw_sum: S::spec_zero(),
            m_sum: S::spec_zero(),
        }
    }

    pub open spec fn spec_with_plies_left(wl: S, draw: S, plies_left: S) -> Self {
        ValueDelta {
            visits: 1,
            wl_sum: wl,
            wl_sq_sum: wl.spec_times(wl),
            draw_sum: draw,
            m_sum: plies_left,
        }
    }

    pub open spec fn spec_merge(self, other: Self) -> Self {
        ValueDelta {
            visits: (self.visits + other.visits) as u32,
            wl_sum: self.wl_sum.spec_plus(other.wl_sum),
            wl_sq_sum: self.wl_sq_sum.spec_plus(other.wl_sq_sum),
            draw_sum: self.draw_sum.spec_plus(other.draw_sum),
            m_sum: self.m_sum.spec_plus(other.m_sum),
        }
    }

    pub open spec fn spec_repeated(self, visits: u32) -> Self {
        ValueDelta {
            visits,
            wl_sum: self.wl_sum.spec_times(S::spec_count(visits)),
            wl_sq_sum: self.wl_sq_sum.spec_times(S::spec_count(visits)),
            draw_sum: self.draw_sum.spec_times(S::spec_count(visits)),
            m_sum: self.m_sum.spec_times(S::spec_count(visits)),
        }
    }

    /// The result of one visit, with nothing said about the length of the game.
    pub fn one(wl: S, draw: S) -> (r: Self)
        requires
            is_value(wl),
            is_share(draw),
        ensures
            r == Self::spec_with_plies_left(wl, draw, S::spec_zero()),
    {
        ValueDelta {
            visits: 1,
            wl_sum: wl,
            wl_sq_sum: wl.times(wl),
            draw_sum: draw,
            m_sum: S::zero(),
        }
    }

    /// The result of one visit.
    pub fn with_plies_left(wl: S, draw: S, plies_left: S) -> (r: Self)
        requires
            is_value(wl),
            is_share(draw),
            crate::scalar::at_most(S::spec_zero(), plies_left),
        ensures
            r == Self::spec_with_plies_left(wl, draw, plies_left),
    {
        ValueDelta { m_sum: plies_left, ..ValueDelta::one(wl, draw) }
    }

    /// The same results seen by the other side.
    pub fn for_parent(self) -> (r: Self)
        ensures
            r == (ValueDelta { wl_sum: self.wl_sum.spec_negated(), ..self }),
    {
        ValueDelta { wl_sum: self.wl_sum.negated(), ..self }
    }

    /// The same results one ply further from the end.
    pub fn one_ply_up(self) -> (r: Self)
        ensures
            r == (ValueDelta { m_sum: self.m_sum.spec_plus(S::spec_count(self.visits)), ..self }),
    {
        ValueDelta { m_sum: self.m_sum.plus(S::count(self.visits)), ..self }
    }

    /// The results of both.
    pub fn merge(self, other: Self) -> (r: Self)
        requires
            self.visits + other.visits <= u32::MAX,
        ensures
            r == self.spec_merge(other),
    {
        ValueDelta {
            visits: self.visits + other.visits,
            wl_sum: self.wl_sum.plus(other.wl_sum),
            wl_sq_sum: self.wl_sq_sum.plus(other.wl_sq_sum),
            draw_sum: self.draw_sum.plus(other.draw_sum),
            m_sum: self.m_sum.plus(other.m_sum),
        }
    }

    /// The result of one visit, counted several times.
    pub fn repeated(self, visits: u32) -> (r: Self)
        requires
            self.visits == 1,
        ensures
            r == self.spec_repeated(visits),
    {
        ValueDelta {
            visits,
            wl_sum: self.wl_sum.times(S::count(visits)),
            wl_sq_sum: self.wl_sq_sum.times(S::count(visits)),
            draw_sum: self.draw_sum.times(S::count(visits)),
            m_sum: self.m_sum.times(S::count(visits)),
        }
    }

    /// The mean value, 0 without visits.
    pub fn q(self) -> (r: S)
        ensures
            r == (if self.visits == 0 {
                S::spec_zero()
            } else {
                self.wl_sum.spec_over(S::spec_count(self.visits))
            }),
    {
        if self.visits == 0 {
            S::zero()
        } else {
            self.wl_sum.over(S::count(self.visits))
        }
    }
}

impl<S: Scalar> Default for ValueDelta<S> {
    fn default() -> (r: Self)
        ensures
            r == Self::spec_empty(),
    {
        ValueDelta {
            visits: 0,
            wl_sum: S::zero(),
            wl_sq_sum: S::zero(),
            draw_sum: S::zero(),
            m_sum: S::zero(),
        }
    }
}

/// Seen by the other side, only the value changes.
pub proof fn law_parent_flips_value_only<S: Scalar>(delta: ValueDelta<S>, flipped: ValueDelta<S>)
    requires
        flipped == (ValueDelta { wl_sum: delta.wl_sum.spec_negated(), ..delta }),
    ensures
        flipped.draw_sum == delta.draw_sum,
        flipped.visits == delta.visits,
        flipped.wl_sq_sum == delta.wl_sq_sum,
        flipped.m_sum == delta.m_sum,
{
}

/// Where nothing is rounded, results that are merged have the mean of all their visits.
pub proof fn law_merged_results_have_the_common_mean<S: Scalar>(
    value: spec_fn(S) -> real,
    a: ValueDelta<S>,
    b: ValueDelta<S>,
    r: ValueDelta<S>,
    mean_a: S,
    mean_b: S,
    mean: S,
)
    requires
        is_unrounded(value),
        a.visits > 0,
        b.visits > 0,
        a.visits + b.visits <= u32::MAX,
        call_ensures(ValueDelta::<S>::merge, (a, b), r),
        call_ensures(ValueDelta::<S>::q, (a,), mean_a),
        call_ensures(ValueDelta::<S>::q, (b,), mean_b),
        call_ensures(ValueDelta::<S>::q, (r,), mean),
    ensures
        r.visits == a.visits + b.visits,
        value(mean) * (r.visits as real) == value(mean_a) * (a.visits as real) + value(mean_b) * (
        b.visits as real),
        value(r.draw_sum) == value(a.draw_sum) + value(b.draw_sum),
        value(r.m_sum) == value(a.m_sum) + value(b.m_sum),
{
    lemma_quotient(value, a.wl_sum, S::spec_count(a.visits));
    lemma_quotient(value, b.wl_sum, S::spec_count(b.visits));
    lemma_quotient(value, r.wl_sum, S::spec_count(r.visits));
}

/// Where nothing is rounded, one result has its own value for a mean, counted several times
/// or once, and the opposite one for the other side; a ply further up every visit has one
/// ply more to go.
pub proof fn law_one_result_is_its_own_mean<S: Scalar>(
    value: spec_fn(S) -> real,
    wl: S,
    draw: S,
    plies_left: S,
    visits: u32,
    one: ValueDelta<S>,
    many: ValueDelta<S>,
    other_side: ValueDelta<S>,
    further: ValueDelta<S>,
    mean: S,
    opposite: S,
)
    requires
        is_unrounded(value),
        visits > 0,
        call_ensures(ValueDelta::<S>::with_plies_left, (wl, draw, plies_left), one),
        call_ensures(ValueDelta::<S>::repeated, (one, visits), many),
        call_ensures(ValueDelta::<S>::for_parent, (many,), other_side),
        call_ensures(ValueDelta::<S>::one_ply_up, (many,), further),
        call_ensures(ValueDelta::<S>::q, (many,), mean),
        call_ensures(ValueDelta::<S>::q, (other_side,), opposite),
    ensures
        one.visits == 1,
        many.visits == visits,
        value(mean) == value(wl),
        value(opposite) == -value(wl),
        value(many.draw_sum) == value(draw) * (visits as real),
        value(many.wl_sq_sum) == value(wl) * value(wl) * (visits as real),
        value(other_side.wl_sq_sum) == value(many.wl_sq_sum),
        value(further.m_sum) == (value(plies_left) + 1real) * (visits as real),
        further.wl_sum == many.wl_sum,
{
    let n = S::spec_count(visits);
    lemma_quotient(value, many.wl_sum, n);
    lemma_quotient(value, other_side.wl_sum, n);
    let (x, k, y, z) = (value(wl), visits as real, value(mean), value(opposite));
    assert(y == x && z == -x) by (nonlinear_arith)
        requires
            y * k == x * k,
            z * k == -(x * k),
            k > 0real,
    ;
    let p = value(plies_left);
    assert(p * k + k == (p + 1real) * k) by (nonlinear_arith);
}

} // verus!
