//! What evaluates positions.
use vstd::prelude::*;

use crate::position::{Move, Position};
use crate::scalar::Scalar;

verus! {

/// The evaluation of a position.
#[derive(Debug)]
pub struct EvalResult<S> {
    pub wl: S,
    pub d: S,
    pub m: S,
    /// The share of each legal move, in their order.
    pub policies: Vec<S>,
}

/// Whatever evaluates positions.
pub trait Backend<S: Scalar> {
    /// What can be said of every evaluation.
    spec fn can_answer(
        &self,
        history: Seq<Position>,
        legal_moves: Seq<Move>,
        answer: EvalResult<S>,
    ) -> bool;

    /// Evaluates the last position of a game, in which these moves are legal.
    fn evaluate(&self, history: &Vec<Position>, legal_moves: &Vec<Move>) -> (r: EvalResult<S>)
        ensures
            self.can_answer(history@, legal_moves@, r),
    ;

    /// How many positions are best evaluated at once; one, unless the backend says otherwise.
    fn recommended_batch_size(&self) -> (r: usize)
        default_ensures
            r == 1,
    {
        1
    }
}

/// Gives every position the same value and every legal move the same share.
#[derive(Clone, Copy, Debug)]
pub struct UniformBackend<S> {
    pub wl: S,
    pub d: S,
    pub m: S,
}

impl<S: Scalar> Default for UniformBackend<S> {
    fn default() -> (r: Self)
        ensures
            r == (UniformBackend { wl: S::spec_zero(), d: S::spec_zero(), m: S::spec_zero() }),
    {
        UniformBackend { wl: S::zero(), d: S::zero(), m: S::zero() }
    }
}

/// The share of each of so many moves.
pub open spec fn equal_share<S: Scalar>(count: nat) -> S {
    S::spec_one().spec_over(
        S::spec_integer(
            if count > 1 {
                count as i64
            } else {
                1
            },
        ),
    )
}

impl<S: Scalar> Backend<S> for UniformBackend<S> {
    open spec fn can_answer(
        &self,
        _history: Seq<Position>,
        legal_moves: Seq<Move>,
        answer: EvalResult<S>,
    ) -> bool {
        &&& answer.wl == self.wl && answer.d == self.d && answer.m == self.m
        &&& answer.policies@.len() == legal_moves.len()
        &&& forall|i: int|
            0 <= i < answer.policies@.len() ==> #[trigger] answer.policies@[i] == equal_share::<S>(
                legal_moves.len(),
            ) || legal_moves.len() > i64::MAX
    }

    fn evaluate(&self, _history: &Vec<Position>, legal_moves: &Vec<Move>) -> (r: EvalResult<S>) {
        let count: usize = legal_moves.len();
        let whole: i64 = if count > 1 {
            if count as u64 > i64::MAX as u64 {
                i64::MAX
            } else {
                count as i64
            }
        } else {
            1
        };
        let share: S = S::one().over(S::integer(whole));
        let mut policies: Vec<S> = Vec::new();
        let mut i: usize = 0;
        while i < count
            invariant
                i <= count,
                policies@.len() == i,
                forall|j: int| 0 <= j < i ==> #[trigger] policies@[j] == share,
            decreases count - i,
        {
            policies.push(share);
            i += 1;
        }
        EvalResult { wl: self.wl, d: self.d, m: self.m, policies }
    }
}

} // verus!
