//! What the results of the replies say about a position.
use vstd::prelude::*;

use crate::exact::{is_even_rounding, lemma_shifting_keeps_order, rounds_by};
use crate::scalar::{larger, max_of, min_of, smaller, Scalar};

verus! {

/// The values that a position may still turn out to have.
#[derive(Clone, Copy, Debug)]
pub struct Bounds<S> {
    pub lower: S,
    pub upper: S,
}

impl<S: Scalar> Bounds<S> {
    /// Everything between a loss and a win.
    pub open spec fn spec_open() -> Self {
        Bounds { lower: S::spec_one().spec_negated(), upper: S::spec_one() }
    }

    /// One value only.
    pub open spec fn spec_exactly(wl: S) -> Self {
        Bounds { lower: wl, upper: wl }
    }

    /// The values that both allow.
    pub open spec fn spec_meet(self, other: Self) -> Self {
        Bounds {
            lower: larger(self.lower, other.lower),
            upper: smaller(self.upper, other.upper),
        }
    }

    /// One value only.
    pub fn exactly(wl: S) -> (r: Self)
        ensures
            r == Self::spec_exactly(wl),
    {
        Bounds { lower: wl, upper: wl }
    }

    /// The values that both allow.
    pub fn meet(self, other: Self) -> (r: Self)
        ensures
            r == self.spec_meet(other),
    {
        Bounds { lower: max_of(self.lower, other.lower), upper: min_of(self.upper, other.upper) }
    }

    /// The gap between the bounds.
    pub open spec fn gap(self) -> S {
        let gap = self.upper.spec_minus(self.lower);
        if S::spec_zero().spec_above(gap) {
            gap.spec_negated()
        } else {
            gap
        }
    }

    /// Whether one value is left, but for rounding.
    pub open spec fn spec_is_exact(self) -> bool {
        !self.gap().spec_above(S::spec_one().spec_over(S::spec_count(8_388_608)))
    }

    /// Whether one value is left, but for rounding.
    pub fn is_exact(self) -> (r: bool)
        ensures
            r == self.spec_is_exact(),
    {
        let gap: S = self.upper.minus(self.lower);
        let size: S = if S::zero().above(gap) {
            gap.negated()
        } else {
            gap
        };
        !size.above(S::one().over(S::count(8_388_608)))
    }
}

impl<S: Scalar> Default for Bounds<S> {
    fn default() -> (r: Self)
        ensures
            r == Self::spec_open(),
    {
        Bounds { lower: S::one().negated(), upper: S::one() }
    }
}

/// What is known of a reply, seen by the side that plays it.
#[derive(Clone, Copy, Debug)]
pub struct Reply<S> {
    pub bounds: Bounds<S>,
    /// The plies to the end, where the reply ends the game.
    pub plies_left: Option<S>,
}

/// The best lower bound of the first `k` replies, a loss where there is none.
pub open spec fn best_lower<S: Scalar>(replies: Seq<Reply<S>>, k: int) -> S
    decreases k,
{
    if k <= 0 {
        S::spec_one().spec_negated()
    } else {
        larger(best_lower(replies, k - 1), replies[k - 1].bounds.lower)
    }
}

/// The best upper bound of the first `k` replies, a loss where there is none.
pub open spec fn best_upper<S: Scalar>(replies: Seq<Reply<S>>, k: int) -> S
    decreases k,
{
    if k <= 0 {
        S::spec_one().spec_negated()
    } else {
        larger(best_upper(replies, k - 1), replies[k - 1].bounds.upper)
    }
}

/// What the replies leave for a position, seen by the side that moved into it.
pub open spec fn left_by_replies<S: Scalar>(replies: Seq<Reply<S>>) -> Bounds<S> {
    Bounds {
        lower: best_upper(replies, replies.len() as int).spec_negated(),
        upper: best_lower(replies, replies.len() as int).spec_negated(),
    }
}

/// What the replies leave for a position, seen by the side that moved into it.
pub fn bounds_from_replies<S: Scalar>(replies: &Vec<Reply<S>>) -> (r: Bounds<S>)
    ensures
        r == left_by_replies(replies@),
{
    let mut lower: S = S::one().negated();
    let mut upper: S = S::one().negated();
    let mut k: usize = 0;
    while k < replies.len()
        invariant
            k <= replies@.len(),
            lower == best_lower(replies@, k as int),
            upper == best_upper(replies@, k as int),
        decreases replies@.len() - k,
    {
        lower = max_of(lower, replies[k].bounds.lower);
        upper = max_of(upper, replies[k].bounds.upper);
        k += 1;
    }
    Bounds { lower: upper.negated(), upper: lower.negated() }
}

/// Which plies count, and whether the longest or the shortest.
#[derive(Clone, Copy, Debug, PartialEq, Eq, Structural)]
pub enum Distance {
    /// The side to move wins: the shortest win.
    ShortestWin,
    /// Every reply loses: the longest loss.
    Longest,
    /// A draw: the shortest game.
    Shortest,
}

/// The plies that count among the first `k` replies.
pub open spec fn plies_among<S: Scalar>(replies: Seq<Reply<S>>, distance: Distance, k: int) -> Option<S>
    decreases k,
{
    if k <= 0 {
        None
    } else {
        let before = plies_among(replies, distance, k - 1);
        let reply = replies[k - 1];
        let counts = distance != Distance::ShortestWin || reply.bounds.lower.spec_above(
            S::spec_zero(),
        );
        match (counts, reply.plies_left, before) {
            (false, _, _) => before,
            (true, None, _) => before,
            (true, Some(m), None) => Some(m),
            (true, Some(m), Some(best)) => Some(
                if distance == Distance::Longest {
                    larger(best, m)
                } else {
                    smaller(best, m)
                },
            ),
        }
    }
}

/// The distance that counts for a value, seen by the side that moved in.
pub open spec fn distance_for<S: Scalar>(wl: S) -> Distance {
    if S::spec_zero().spec_above(wl) {
        Distance::ShortestWin
    } else if wl.spec_above(S::spec_zero()) {
        Distance::Longest
    } else {
        Distance::Shortest
    }
}

/// The plies to the end of a position with a proven value.
pub open spec fn spec_proven_plies<S: Scalar>(replies: Seq<Reply<S>>, wl: S) -> S {
    (match plies_among(replies, distance_for(wl), replies.len() as int) {
        Some(m) => m,
        None => S::spec_zero(),
    }).spec_plus(S::spec_one())
}

/// The plies to the end of a position with a proven value: the winner hurries, the
/// loser delays.
pub fn proven_plies<S: Scalar>(replies: &Vec<Reply<S>>, wl: S) -> (r: S)
    ensures
        r == spec_proven_plies(replies@, wl),
{
    let distance: Distance = if S::zero().above(wl) {
        Distance::ShortestWin
    } else if wl.above(S::zero()) {
        Distance::Longest
    } else {
        Distance::Shortest
    };
    let mut best: Option<S> = None;
    let mut k: usize = 0;
    while k < replies.len()
        invariant
            k <= replies@.len(),
            distance == distance_for(wl),
            best == plies_among(replies@, distance, k as int),
        decreases replies@.len() - k,
    {
        let reply: Reply<S> = replies[k];
        if distance != Distance::ShortestWin || reply.bounds.lower.above(S::zero()) {
            match (reply.plies_left, best) {
                (Some(m), Some(so_far)) => {
                    best = Some(
                        if distance == Distance::Longest {
                            max_of(so_far, m)
                        } else {
                            min_of(so_far, m)
                        },
                    );
                },
                (Some(m), None) => {
                    best = Some(m);
                },
                (None, _) => {},
            }
        }
        k += 1;
    }
    let plies: S = match best {
        Some(m) => m,
        None => S::zero(),
    };
    plies.plus(S::one())
}

/// The draw share of a proven value: all or nothing.
pub open spec fn draw_of<S: Scalar>(wl: S) -> S {
    if wl.spec_same(S::spec_zero()) {
        S::spec_one()
    } else {
        S::spec_zero()
    }
}

/// The draw share of a proven value: all or nothing.
pub fn proven_draw<S: Scalar>(wl: S) -> (r: S)
    ensures
        r == draw_of(wl),
{
    if wl.same(S::zero()) {
        S::one()
    } else {
        S::zero()
    }
}

/// A position is worth no more to the side that moved into it than any reply leaves it, and
/// no less than the best of them: the upper bound is the opposite of the best result that a
/// reply guarantees, the lower one the opposite of the best that a reply allows.
pub proof fn law_replies_bound_a_position<S: Scalar>(
    value: spec_fn(S) -> real,
    round: spec_fn(real) -> real,
    replies: Vec<Reply<S>>,
    r: Bounds<S>,
)
    requires
        rounds_by(value, round),
        is_even_rounding(round),
        call_ensures(bounds_from_replies::<S>, (&replies,), r),
    ensures
        value(r.lower) <= 1real,
        value(r.upper) <= 1real,
        forall|i: int|
            0 <= i < replies@.len() ==> value(r.upper) <= -value(
                (#[trigger] replies@[i]).bounds.lower,
            ),
        forall|i: int|
            0 <= i < replies@.len() ==> value(r.lower) <= -value(
                (#[trigger] replies@[i]).bounds.upper,
            ),
        value(r.upper) == 1real || exists|i: int|
            0 <= i < replies@.len() && value(r.upper) == -value(
                (#[trigger] replies@[i]).bounds.lower,
            ),
        value(r.lower) == 1real || exists|i: int|
            0 <= i < replies@.len() && value(r.lower) == -value(
                (#[trigger] replies@[i]).bounds.upper,
            ),
{
    let n = replies@.len() as int;
    lemma_best_of_replies(value, round, replies@, n);
    let (a, b) = (value(best_lower(replies@, n)), value(best_upper(replies@, n)));
    assert(round(-a) == -round(a));
    assert(round(-b) == -round(b));
}

proof fn lemma_best_of_replies<S: Scalar>(
    value: spec_fn(S) -> real,
    round: spec_fn(real) -> real,
    replies: Seq<Reply<S>>,
    k: int,
)
    requires
        rounds_by(value, round),
        is_even_rounding(round),
        0 <= k <= replies.len(),
    ensures
        value(best_lower(replies, k)) >= -1real,
        value(best_upper(replies, k)) >= -1real,
        forall|i: int|
            0 <= i < k ==> value(best_lower(replies, k)) >= value(
                (#[trigger] replies[i]).bounds.lower,
            ),
        forall|i: int|
            0 <= i < k ==> value(best_upper(replies, k)) >= value(
                (#[trigger] replies[i]).bounds.upper,
            ),
        value(best_lower(replies, k)) == -1real || exists|i: int|
            0 <= i < k && value(best_lower(replies, k)) == value(
                (#[trigger] replies[i]).bounds.lower,
            ),
        value(best_upper(replies, k)) == -1real || exists|i: int|
            0 <= i < k && value(best_upper(replies, k)) == value(
                (#[trigger] replies[i]).bounds.upper,
            ),
    decreases k,
{
    if k > 0 {
        lemma_best_of_replies(value, round, replies, k - 1);
        let last = replies[k - 1];
        assert(value(best_lower(replies, k)) == value(best_lower(replies, k - 1)) || value(
            best_lower(replies, k),
        ) == value(last.bounds.lower));
        assert(value(best_upper(replies, k)) == value(best_upper(replies, k - 1)) || value(
            best_upper(replies, k),
        ) == value(last.bounds.upper));
    } else {
        let one = value(S::spec_one());
        assert(round(-one) == -round(one));
    }
}

/// The winner hurries and the loser delays: where the side to move wins, the game is no
/// longer than the way through any winning reply; where it loses, no shorter than the way
/// through any reply; a draw is no longer than any. The length is that through some reply,
/// one ply more than it leaves, or one ply where no reply tells a length.
pub proof fn law_winner_hurries_and_loser_delays<S: Scalar>(
    value: spec_fn(S) -> real,
    round: spec_fn(real) -> real,
    replies: Vec<Reply<S>>,
    wl: S,
    plies: S,
)
    requires
        rounds_by(value, round),
        call_ensures(proven_plies::<S>, (&replies, wl), plies),
    ensures
        forall|i: int|
            0 <= i < replies@.len() && (#[trigger] replies@[i]).plies_left is Some && (value(wl)
                == 0real || (value(wl) < 0real && value(replies@[i].bounds.lower) > 0real))
                ==> value(plies) <= value(
                replies@[i].plies_left->Some_0.spec_plus(S::spec_one()),
            ),
        forall|i: int|
            0 <= i < replies@.len() && (#[trigger] replies@[i]).plies_left is Some && value(wl)
                > 0real ==> value(plies) >= value(
                replies@[i].plies_left->Some_0.spec_plus(S::spec_one()),
            ),
        plies == S::spec_zero().spec_plus(S::spec_one()) || exists|i: int|
            0 <= i < replies@.len() && (#[trigger] replies@[i]).plies_left is Some && plies
                == replies@[i].plies_left->Some_0.spec_plus(S::spec_one()) && (value(wl) < 0real
                ==> value(replies@[i].bounds.lower) > 0real),
{
    let n = replies@.len() as int;
    let distance = distance_for(wl);
    let one = S::spec_one();
    lemma_plies_among(value, round, replies@, distance, n);
    let best = plies_among(replies@, distance, n);
    assert forall|i: int|
        0 <= i < replies@.len() && (#[trigger] replies@[i]).plies_left is Some && (value(wl)
            == 0real || (value(wl) < 0real && value(replies@[i].bounds.lower) > 0real)) implies value(
        plies,
    ) <= value(replies@[i].plies_left->Some_0.spec_plus(one)) by {
        lemma_shifting_keeps_order(
            value,
            round,
            best->Some_0,
            replies@[i].plies_left->Some_0,
            one,
        );
    }
    assert forall|i: int|
        0 <= i < replies@.len() && (#[trigger] replies@[i]).plies_left is Some && value(wl)
            > 0real implies value(plies) >= value(
        replies@[i].plies_left->Some_0.spec_plus(one),
    ) by {
        lemma_shifting_keeps_order(
            value,
            round,
            replies@[i].plies_left->Some_0,
            best->Some_0,
            one,
        );
    }
}

proof fn lemma_plies_among<S: Scalar>(
    value: spec_fn(S) -> real,
    round: spec_fn(real) -> real,
    replies: Seq<Reply<S>>,
    distance: Distance,
    k: int,
)
    requires
        rounds_by(value, round),
        0 <= k <= replies.len(),
    ensures
        forall|i: int|
            0 <= i < k && (#[trigger] replies[i]).plies_left is Some && (distance
                != Distance::ShortestWin || value(replies[i].bounds.lower) > 0real) ==> {
                let best = plies_among(replies, distance, k);
                &&& best is Some
                &&& distance == Distance::Longest ==> value(best->Some_0) >= value(
                    replies[i].plies_left->Some_0,
                )
                &&& distance != Distance::Longest ==> value(best->Some_0) <= value(
                    replies[i].plies_left->Some_0,
                )
            },
        plies_among(replies, distance, k) matches Some(m) ==> exists|i: int|
            0 <= i < k && (#[trigger] replies[i]).plies_left == Some(m) && (distance
                != Distance::ShortestWin || value(replies[i].bounds.lower) > 0real),
    decreases k,
{
    if k > 0 {
        lemma_plies_among(value, round, replies, distance, k - 1);
        let last = replies[k - 1];
        assert(last.bounds.lower.spec_above(S::spec_zero()) <==> value(last.bounds.lower) > 0real);
    }
}

/// A proven draw is all draw, a proven win or loss none.
pub proof fn law_proven_draw_is_all_or_nothing<S: Scalar>(
    value: spec_fn(S) -> real,
    round: spec_fn(real) -> real,
    wl: S,
    draw: S,
)
    requires
        rounds_by(value, round),
        call_ensures(proven_draw::<S>, (wl,), draw),
    ensures
        value(draw) == (if value(wl) == 0real {
            1real
        } else {
            0real
        }),
{
}

/// What two bounds both allow is what lies within both.
pub proof fn law_meeting_bounds_allow_what_both_allow<S: Scalar>(
    value: spec_fn(S) -> real,
    round: spec_fn(real) -> real,
    a: Bounds<S>,
    b: Bounds<S>,
    x: real,
    r: Bounds<S>,
)
    requires
        rounds_by(value, round),
        call_ensures(Bounds::<S>::meet, (a, b), r),
    ensures
        value(r.lower) <= x <= value(r.upper) <==> value(a.lower) <= x <= value(a.upper) && value(
            b.lower,
        ) <= x <= value(b.upper),
{
}

} // verus!
