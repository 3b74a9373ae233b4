//! The smallest set of parameters of selection.
use vstd::prelude::*;

use crate::graph::policy::{
    finite, finite_from_zero, fraction, is_finite, is_finite_from_zero,
};
use crate::exact::{is_unrounded, lemma_growing_weight};
use crate::scalar::Scalar;

verus! {

/// The parameters of selection.
#[derive(Clone, Copy, Debug)]
pub struct SearchParams<S> {
    pub cpuct: S,
    pub cpuct_base: S,
    pub cpuct_factor: S,
    pub fpu_reduction: S,
}

impl<S: Scalar> SearchParams<S> {
    pub open spec fn spec_default() -> Self {
        SearchParams {
            cpuct: S::spec_one(),
            cpuct_base: S::spec_count(38_739),
            cpuct_factor: fraction(3_894, 1000),
            fpu_reduction: fraction(220, 1000),
        }
    }

    /// What is wrong with the parameters, if anything is.
    pub open spec fn fault(self) -> Option<&'static str> {
        if !finite_from_zero(self.cpuct) {
            Some("stream cpuct must be finite and non-negative")
        } else if !(finite(self.cpuct_base) && self.cpuct_base.spec_above(S::spec_zero())) {
            Some("stream cpuct base must be finite and positive")
        } else if !finite(self.cpuct_factor) {
            Some("stream cpuct factor must be finite")
        } else if !finite_from_zero(self.fpu_reduction) {
            Some("stream FPU reduction must be finite and non-negative")
        } else {
            None
        }
    }

    /// Says what is wrong with the parameters, if anything is.
    pub fn validate(self) -> (r: Result<(), &'static str>)
        ensures
            r is Ok == self.fault() is None,
            r matches Err(fault) ==> Some(fault) == self.fault(),
    {
        if !is_finite_from_zero(self.cpuct) {
            return Err("stream cpuct must be finite and non-negative");
        }
        if !(is_finite(self.cpuct_base) && self.cpuct_base.above(S::zero())) {
            return Err("stream cpuct base must be finite and positive");
        }
        if !is_finite(self.cpuct_factor) {
            return Err("stream cpuct factor must be finite");
        }
        if !is_finite_from_zero(self.fpu_reduction) {
            return Err("stream FPU reduction must be finite and non-negative");
        }
        Ok(())
    }
}

impl<S: Scalar> Default for SearchParams<S> {
    fn default() -> (r: Self)
        ensures
            r == Self::spec_default(),
    {
        SearchParams {
            cpuct: S::one(),
            cpuct_base: S::count(38_739),
            cpuct_factor: S::count(3_894).over(S::count(1000)),
            fpu_reduction: S::count(220).over(S::count(1000)),
        }
    }
}

pub open spec fn spec_cpuct<S: Scalar>(params: SearchParams<S>, visits: u32) -> S {
    if params.cpuct_factor.spec_same(S::spec_zero()) {
        params.cpuct
    } else {
        params.cpuct.spec_plus(
            params.cpuct_factor.spec_times(
                S::spec_count(visits).spec_plus(params.cpuct_base).spec_over(
                    params.cpuct_base,
                ).spec_log(),
            ),
        )
    }
}

/// How much a node explores: more with its visits, unless the factor is zero.
pub fn compute_cpuct<S: Scalar>(params: SearchParams<S>, visits: u32) -> (r: S)
    ensures
        r == spec_cpuct(params, visits),
{
    if params.cpuct_factor.same(S::zero()) {
        params.cpuct
    } else {
        params.cpuct.plus(
            params.cpuct_factor.times(
                S::count(visits).plus(params.cpuct_base).over(params.cpuct_base).log(),
            ),
        )
    }
}

/// Without a factor the visits do not matter.
pub proof fn law_zero_factor_is_constant<S: Scalar>(params: SearchParams<S>, a: u32, b: u32)
    requires
        params.cpuct_factor.spec_same(S::spec_zero()),
    ensures
        spec_cpuct(params, a) == params.cpuct,
        spec_cpuct(params, a) == spec_cpuct(params, b),
{
}

/// Where nothing is rounded, a node without visits explores with the constant alone, and
/// one with more visits explores no less.
pub proof fn law_exploration_grows_with_visits<S: Scalar>(
    value: spec_fn(S) -> real,
    params: SearchParams<S>,
    visits: u32,
    more_visits: u32,
    weight: S,
    larger_weight: S,
)
    requires
        is_unrounded(value),
        value(params.cpuct_factor) >= 0real,
        value(params.cpuct_base) > 0real,
        visits <= more_visits,
        call_ensures(compute_cpuct::<S>, (params, visits), weight),
        call_ensures(compute_cpuct::<S>, (params, more_visits), larger_weight),
    ensures
        value(params.cpuct) <= value(weight) <= value(larger_weight),
        visits == 0 ==> value(weight) == value(params.cpuct),
{
    lemma_growing_weight(
        value,
        params.cpuct,
        params.cpuct_factor,
        params.cpuct_base,
        visits,
        more_visits,
    );
}

} // verus!
