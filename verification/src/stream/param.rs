//! The parameters of a search and of the tasks that run it.
use vstd::prelude::*;

use crate::graph::policy::{
    finite, finite_from_zero, fraction, is_finite, is_finite_from_zero,
};
use crate::scalar::Scalar;
use crate::stream::ascii::{lowered, lowered_char};

verus! {

/// By what the move is chosen at the end of a search.
#[derive(Clone, Copy, Debug, PartialEq, Eq, Structural)]
pub enum DecisionRule {
    /// The same as `MaxN`.
    Auto,
    MaxQ,
    MaxN,
    Lcb,
    Ucb,
    MixNQ,
}

impl Default for DecisionRule {
    fn default() -> (r: Self)
        ensures
            r == DecisionRule::Auto,
    {
        DecisionRule::Auto
    }
}

impl DecisionRule {
    pub open spec fn spec_uci_name(self) -> Seq<char> {
        match self {
            DecisionRule::Auto => "Auto"@,
            DecisionRule::MaxQ => "MaxQ"@,
            DecisionRule::MaxN => "MaxN"@,
            DecisionRule::Lcb => "Lcb"@,
            DecisionRule::Ucb => "Ucb"@,
            DecisionRule::MixNQ => "MixNQ"@,
        }
    }

    /// The name of a rule.
    pub fn uci_name(self) -> (r: &'static str)
        ensures
            r@ == self.spec_uci_name(),
    {
        match self {
            DecisionRule::Auto => "Auto",
            DecisionRule::MaxQ => "MaxQ",
            DecisionRule::MaxN => "MaxN",
            DecisionRule::Lcb => "Lcb",
            DecisionRule::Ucb => "Ucb",
            DecisionRule::MixNQ => "MixNQ",
        }
    }

    /// Whether a text names a rule, in whatever case.
    pub open spec fn is_named(self, text: Seq<char>) -> bool {
        lowered(text) == lowered(self.spec_uci_name())
    }

    /// The rule that a text names, in whatever case.
    pub fn parse_uci(value: &str) -> (r: Option<Self>)
        ensures
            r matches Some(rule) ==> rule.is_named(value@),
            r is None ==> forall|rule: DecisionRule| !#[trigger] rule.is_named(value@),
    {
        proof {
            lemma_names();
        }
        if value.eq_ignore_ascii_case("auto") {
            Some(DecisionRule::Auto)
        } else if value.eq_ignore_ascii_case("maxq") {
            Some(DecisionRule::MaxQ)
        } else if value.eq_ignore_ascii_case("maxn") {
            Some(DecisionRule::MaxN)
        } else if value.eq_ignore_ascii_case("lcb") {
            Some(DecisionRule::Lcb)
        } else if value.eq_ignore_ascii_case("ucb") {
            Some(DecisionRule::Ucb)
        } else if value.eq_ignore_ascii_case("mixnq") {
            Some(DecisionRule::MixNQ)
        } else {
            None
        }
    }
}

proof fn lemma_names()
    ensures
        lowered("auto"@) == lowered(DecisionRule::Auto.spec_uci_name()),
        lowered("maxq"@) == lowered(DecisionRule::MaxQ.spec_uci_name()),
        lowered("maxn"@) == lowered(DecisionRule::MaxN.spec_uci_name()),
        lowered("lcb"@) == lowered(DecisionRule::Lcb.spec_uci_name()),
        lowered("ucb"@) == lowered(DecisionRule::Ucb.spec_uci_name()),
        lowered("mixnq"@) == lowered(DecisionRule::MixNQ.spec_uci_name()),
{
    reveal_strlit("auto");
    reveal_strlit("maxq");
    reveal_strlit("maxn");
    reveal_strlit("lcb");
    reveal_strlit("ucb");
    reveal_strlit("mixnq");
    reveal_strlit("Auto");
    reveal_strlit("MaxQ");
    reveal_strlit("MaxN");
    reveal_strlit("Lcb");
    reveal_strlit("Ucb");
    reveal_strlit("MixNQ");
    assert(lowered("auto"@) =~= lowered("Auto"@));
    assert(lowered("maxq"@) =~= lowered("MaxQ"@));
    assert(lowered("maxn"@) =~= lowered("MaxN"@));
    assert(lowered("lcb"@) =~= lowered("Lcb"@));
    assert(lowered("ucb"@) =~= lowered("Ucb"@));
    assert(lowered("mixnq"@) =~= lowered("MixNQ"@));
}

/// No text names two rules, so that reading a rule's name gives the rule back.
pub proof fn law_names_are_unambiguous(a: DecisionRule, b: DecisionRule, text: Seq<char>)
    requires
        a.is_named(text),
        b.is_named(text),
    ensures
        a == b,
{
    reveal_strlit("Auto");
    reveal_strlit("MaxQ");
    reveal_strlit("MaxN");
    reveal_strlit("Lcb");
    reveal_strlit("Ucb");
    reveal_strlit("MixNQ");
    let x = lowered(a.spec_uci_name());
    let y = lowered(b.spec_uci_name());
    assert(x == y);
    assert(x.len() == a.spec_uci_name().len());
    assert(y.len() == b.spec_uci_name().len());
    assert(x[0] == lowered_char(a.spec_uci_name()[0]));
    assert(y[0] == lowered_char(b.spec_uci_name()[0]));
    if x.len() == 4 {
        assert(x[3] == lowered_char(a.spec_uci_name()[3]));
        assert(y[3] == lowered_char(b.spec_uci_name()[3]));
    }
}

/// The parameters of selection and of the choice at the end.
#[derive(Clone, Copy, Debug)]
pub struct SearchParams<S> {
    pub cpuct: S,
    /// From how many visits on exploration grows.
    pub cpuct_base: S,
    /// By how much exploration grows.
    pub cpuct_factor: S,
    /// How much less an edge without a value is assumed to be worth.
    pub fpu_reduction: S,
    /// How much the uncertainty of an edge's value counts; 0 switches it off.
    pub variance_bonus_scale: S,
    /// The share of the assumed value that a visit under way counts as.
    pub virtual_mean_fpu_scale: S,
    pub decision_lcb_stdevs: S,
    pub decision_ucb_stdevs: S,
    pub decision_rule: DecisionRule,
    pub decision_mix_n_weight: S,
}

impl<S: Scalar> SearchParams<S> {
    pub open spec fn spec_default() -> Self {
        SearchParams {
            cpuct: fraction(24, 10),
            cpuct_base: S::spec_count(40_000),
            cpuct_factor: S::spec_zero(),
            fpu_reduction: fraction(225, 1000),
            variance_bonus_scale: fraction(15, 10),
            virtual_mean_fpu_scale: S::spec_one(),
            decision_lcb_stdevs: S::spec_one(),
            decision_ucb_stdevs: S::spec_one(),
            decision_rule: DecisionRule::Auto,
            decision_mix_n_weight: fraction(25, 100),
        }
    }

    /// What is wrong with the parameters, if anything is.
    pub open spec fn fault(self) -> Option<&'static str> {
        if !finite_from_zero(self.cpuct) {
            Some("stream cpuct must be finite and non-negative")
        } else if !(finite(self.cpuct_base) && self.cpuct_base.spec_above(S::spec_zero())) {
            Some("stream cpuct base must be finite and positive")
        } else if !finite_from_zero(self.cpuct_factor) {
            Some("stream cpuct factor must be finite and non-negative")
        } else if !finite_from_zero(self.fpu_reduction) {
            Some("stream FPU reduction must be finite and non-negative")
        } else if !finite_from_zero(self.variance_bonus_scale) {
            Some("stream variance bonus scale must be finite and non-negative")
        } else if !finite_from_zero(self.virtual_mean_fpu_scale) {
            Some("stream virtual mean FPU scale must be finite and non-negative")
        } else if !finite_from_zero(self.decision_lcb_stdevs) {
            Some("stream decision LCB stdevs must be finite and non-negative")
        } else if !finite_from_zero(self.decision_ucb_stdevs) {
            Some("stream decision UCB stdevs must be finite and non-negative")
        } else if !finite_from_zero(self.decision_mix_n_weight) {
            Some("stream decision MixNQ N weight must be finite and non-negative")
        } else {
            None
        }
    }

    /// Says what is wrong with the parameters, if anything is.
    pub fn validate(self) -> (r: Result<(), &'static str>)
        ensures
            r is Ok == self.fault() is None,
            r matches Err(fault) ==> Some(fault) == self.fault(),
    {
        if !is_finite_from_zero(self.cpuct) {
            return Err("stream cpuct must be finite and non-negative");
        }
        if !(is_finite(self.cpuct_base) && self.cpuct_base.above(S::zero())) {
            return Err("stream cpuct base must be finite and positive");
        }
        if !is_finite_from_zero(self.cpuct_factor) {
            return Err("stream cpuct factor must be finite and non-negative");
        }
        if !is_finite_from_zero(self.fpu_reduction) {
            return Err("stream FPU reduction must be finite and non-negative");
        }
        if !is_finite_from_zero(self.variance_bonus_scale) {
            return Err("stream variance bonus scale must be finite and non-negative");
        }
        if !is_finite_from_zero(self.virtual_mean_fpu_scale) {
            return Err("stream virtual mean FPU scale must be finite and non-negative");
        }
        if !is_finite_from_zero(self.decision_lcb_stdevs) {
            return Err("stream decision LCB stdevs must be finite and non-negative");
        }
        if !is_finite_from_zero(self.decision_ucb_stdevs) {
            return Err("stream decision UCB stdevs must be finite and non-negative");
        }
        if !is_finite_from_zero(self.decision_mix_n_weight) {
            return Err("stream decision MixNQ N weight must be finite and non-negative");
        }
        Ok(())
    }
}

impl<S: Scalar> Default for SearchParams<S> {
    fn default() -> (r: Self)
        ensures
            r == Self::spec_default(),
    {
        SearchParams {
            cpuct: S::count(24).over(S::count(10)),
            cpuct_base: S::count(40_000),
            cpuct_factor: S::zero(),
            fpu_reduction: S::count(225).over(S::count(1000)),
            variance_bonus_scale: S::count(15).over(S::count(10)),
            virtual_mean_fpu_scale: S::one(),
            decision_lcb_stdevs: S::one(),
            decision_ucb_stdevs: S::one(),
            decision_rule: DecisionRule::Auto,
            decision_mix_n_weight: S::count(25).over(S::count(100)),
        }
    }
}

/// How the tasks of a search run. Where a size is 0 the backend decides.
#[derive(Clone, Copy, Debug)]
pub struct SearchConfig<S> {
    pub queue_capacity: usize,
    pub eval_batch_size: usize,
    /// How many batches of evaluations may be under way at the same time.
    pub nn_window: S,
    pub params: SearchParams<S>,
    pub cpu_workers: usize,
}

/// The sizes that a search runs with.
#[derive(Clone, Copy, Debug)]
pub struct ResolvedSearchConfig<S> {
    pub queue_capacity: usize,
    pub eval_batch_size: usize,
    pub eval_claim_limit: usize,
    pub params: SearchParams<S>,
    pub cpu_workers: usize,
}

/// The smallest whole number that is not below a number, as far as it can be counted.
pub open spec fn spec_ceiling<S: Scalar>(x: S) -> int {
    let whole = x.spec_truncated();
    if x.spec_above(S::spec_integer(whole)) && whole < i64::MAX {
        whole + 1
    } else {
        whole as int
    }
}

fn ceiling<S: Scalar>(x: S) -> (r: i64)
    ensures
        r == spec_ceiling(x),
{
    let whole: i64 = x.truncated();
    if x.above(S::integer(whole)) && whole < i64::MAX {
        whole + 1
    } else {
        whole
    }
}

impl<S: Scalar> SearchConfig<S> {
    pub open spec fn spec_default() -> Self {
        SearchConfig {
            queue_capacity: 0,
            eval_batch_size: 0,
            nn_window: fraction(225, 100),
            params: SearchParams::spec_default(),
            cpu_workers: 8,
        }
    }

    /// What is wrong with the configuration, if anything is.
    pub open spec fn fault(self) -> Option<&'static str> {
        if self.params.fault() is Some {
            self.params.fault()
        } else if self.cpu_workers == 0 {
            Some("stream requires at least one CPU worker")
        } else if !(finite(self.nn_window) && self.nn_window.spec_above(S::spec_zero())) {
            Some("stream nn window factor must be finite and positive")
        } else {
            None
        }
    }

    /// Says what is wrong with the configuration, if anything is.
    pub fn validate(&self) -> (r: Result<(), &'static str>)
        ensures
            r is Ok == self.fault() is None,
            r matches Err(fault) ==> Some(fault) == self.fault(),
    {
        match self.params.validate() {
            Err(fault) => {
                return Err(fault);
            },
            Ok(_) => {},
        }
        if self.cpu_workers == 0 {
            return Err("stream requires at least one CPU worker");
        }
        if !(is_finite(self.nn_window) && self.nn_window.above(S::zero())) {
            return Err("stream nn window factor must be finite and positive");
        }
        Ok(())
    }

    /// The batch size that a search runs with.
    pub open spec fn batch_size(self, recommended: usize, maximum: usize) -> usize {
        let most = if maximum > 1 {
            maximum
        } else {
            1
        };
        if self.eval_batch_size == 0 {
            if recommended > 1 {
                recommended
            } else {
                1
            }
        } else if self.eval_batch_size < most {
            self.eval_batch_size
        } else {
            most
        }
    }

    /// The length of the queues that a search runs with.
    pub open spec fn queue_length(self, batch: usize) -> int {
        if self.queue_capacity != 0 {
            self.queue_capacity as int
        } else if batch * 64 > usize::MAX {
            usize::MAX as int
        } else if batch * 64 < 4096 {
            4096
        } else {
            batch * 64
        }
    }

    /// Fills in the sizes that the backend decides. A batch must fit into a queue.
    pub fn resolve(&self, recommended_batch_size: usize, maximum_batch_size: usize) -> (r: Result<
        ResolvedSearchConfig<S>,
        &'static str,
    >)
        requires
            recommended_batch_size <= i64::MAX,
            maximum_batch_size <= i64::MAX,
        ensures
            ({
                let batch = self.batch_size(recommended_batch_size, maximum_batch_size);
                let queue = self.queue_length(batch);
                let limit = spec_ceiling(S::spec_integer(batch as i64).spec_times(self.nn_window));
                &&& r is Ok == (batch <= queue)
                &&& (r matches Err(fault) ==> fault
                    == "stream eval batch size must fit the queue capacity")
                &&& (r matches Ok(resolved) ==> {
                    &&& resolved.queue_capacity == queue
                    &&& resolved.eval_batch_size == batch
                    &&& resolved.eval_claim_limit == (if limit > usize::MAX {
                        usize::MAX as int
                    } else if limit > 1 {
                        limit
                    } else {
                        1
                    })
                    &&& resolved.params == self.params
                    &&& resolved.cpu_workers == self.cpu_workers
                })
            }),
    {
        let most: usize = if maximum_batch_size > 1 {
            maximum_batch_size
        } else {
            1
        };
        let batch: usize = if self.eval_batch_size == 0 {
            if recommended_batch_size > 1 {
                recommended_batch_size
            } else {
                1
            }
        } else if self.eval_batch_size < most {
            self.eval_batch_size
        } else {
            most
        };
        let queue: usize = if self.queue_capacity != 0 {
            self.queue_capacity
        } else if batch > usize::MAX / 64 {
            usize::MAX
        } else if batch * 64 < 4096 {
            4096
        } else {
            batch * 64
        };
        if batch > queue {
            return Err("stream eval batch size must fit the queue capacity");
        }
        let limit: i64 = ceiling(S::integer(batch as i64).times(self.nn_window));
        Ok(
            ResolvedSearchConfig {
                queue_capacity: queue,
                eval_batch_size: batch,
                eval_claim_limit: if limit > 1 && limit as u64 > usize::MAX as u64 {
                    usize::MAX
                } else if limit > 1 {
                    limit as usize
                } else {
                    1
                },
                params: self.params,
                cpu_workers: self.cpu_workers,
            },
        )
    }
}

impl<S: Scalar> Default for SearchConfig<S> {
    fn default() -> (r: Self)
        ensures
            r == Self::spec_default(),
    {
        SearchConfig {
            queue_capacity: 0,
            eval_batch_size: 0,
            nn_window: S::count(225).over(S::count(100)),
            params: SearchParams::default(),
            cpu_workers: 8,
        }
    }
}

/// A resolved configuration always has room for a batch and at least one evaluation.
pub proof fn law_resolved_sizes_fit<S: Scalar>(
    config: SearchConfig<S>,
    recommended: usize,
    maximum: usize,
)
    ensures
        config.batch_size(recommended, maximum) >= 1,
        config.queue_capacity == 0 ==> config.batch_size(recommended, maximum)
            <= config.queue_length(config.batch_size(recommended, maximum)),
        config.queue_capacity == 0 ==> config.queue_length(
            config.batch_size(recommended, maximum),
        ) >= 4096,
{
}

} // verus!
