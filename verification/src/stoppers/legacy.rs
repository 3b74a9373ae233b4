//! The time manager that plans with an estimate of the moves still to be made.
use vstd::prelude::*;

use crate::exact::{
    is_unrounded, is_whole_part, lemma_counts, lemma_integers_keep_order, lemma_quotient,
    lemma_scaling_keeps_order, lemma_scaling_keeps_sign, lemma_shifting_keeps_order, lemma_whole_parts_keep_order, rounds_by,
};
use crate::go_params::GoParams;
use crate::scalar::{
    larger, magnitude, max_of, truncated_quotient, Fixed, Scalar, FIXED_UNIT,
};
use crate::stoppers::stopper::TimeLimitStopper;

verus! {

/// The weights of the time manager.
#[derive(Clone, Copy, Debug)]
pub struct LegacyWeights<S> {
    /// The bonus of the first move of a game.
    pub first_move_bonus: S,
    /// The further bonus for each ply played from a book.
    pub book_ply_bonus: S,
    /// Times up to this are not stretched.
    pub smart_pruning_tolerance_ms: S,
}

/// What the time manager remembers from one move to the next.
#[derive(Clone, Copy, Debug)]
pub struct LegacyTimeManager<S> {
    pub move_overhead_ms: i64,
    pub slowmover: S,
    pub first_move_of_game: bool,
    /// Time that earlier moves were given and did not use.
    pub time_spared_ms: i64,
}

/// An integer brought into the range of the clock.
pub open spec fn clocked(x: int) -> int {
    if x > i64::MAX {
        i64::MAX as int
    } else if x < i64::MIN {
        i64::MIN as int
    } else {
        x
    }
}

fn clock_difference(a: i64, b: i64) -> (r: i64)
    ensures
        r == clocked(a - b),
{
    let x: i128 = a as i128 - b as i128;
    if x > i64::MAX as i128 {
        i64::MAX
    } else if x < i64::MIN as i128 {
        i64::MIN
    } else {
        x as i64
    }
}

fn clock_sum(a: i64, b: i64) -> (r: i64)
    ensures
        r == clocked(a + b),
{
    let x: i128 = a as i128 + b as i128;
    if x > i64::MAX as i128 {
        i64::MAX
    } else if x < i64::MIN as i128 {
        i64::MIN
    } else {
        x as i64
    }
}

/// The increment of one side, never negative.
pub open spec fn side_increment(params: GoParams, black_to_move: bool) -> i64 {
    let increment = if black_to_move {
        params.binc
    } else {
        params.winc
    };
    match increment {
        Some(value) => if value > 0 {
            value
        } else {
            0
        },
        None => 0,
    }
}

/// The moves to plan for: the estimate, or fewer where the time control comes
/// sooner.
pub open spec fn moves_to_plan<S: Scalar>(params: GoParams, estimate: S) -> S {
    match params.movestogo {
        Some(value) => if value > 0 && estimate.spec_above(S::spec_integer(value as i64)) {
            S::spec_integer(value as i64)
        } else {
            estimate
        },
        None => estimate,
    }
}

impl<S: Scalar> LegacyTimeManager<S> {
    /// A time manager at the beginning of a game.
    pub fn new(move_overhead_ms: i64, slowmover: S) -> (r: Self)
        ensures
            r == (LegacyTimeManager {
                move_overhead_ms,
                slowmover,
                first_move_of_game: true,
                time_spared_ms: 0,
            }),
    {
        LegacyTimeManager {
            move_overhead_ms,
            slowmover,
            first_move_of_game: true,
            time_spared_ms: 0,
        }
    }

    pub fn move_overhead_ms(&self) -> (r: i64)
        ensures
            r == self.move_overhead_ms,
    {
        self.move_overhead_ms
    }

    pub fn time_spared_ms(&self) -> (r: i64)
        ensures
            r == self.time_spared_ms,
    {
        self.time_spared_ms
    }

    /// The time for all moves to be planned: what is on the clock and will be added,
    /// less the overhead and less what was spared, which is spent at once.
    pub open spec fn total_time(self, params: GoParams, black_to_move: bool, moves: S) -> S {
        let base = larger(
            S::spec_integer(params.side_time(black_to_move)->Some_0).spec_plus(
                S::spec_integer(side_increment(params, black_to_move)).spec_times(
                    moves.spec_minus(S::spec_one()),
                ),
            ).spec_minus(S::spec_integer(self.move_overhead_ms)),
            S::spec_zero(),
        );
        if self.time_spared_ms > 0 {
            larger(base.spec_minus(S::spec_integer(self.time_spared_ms)), S::spec_zero())
        } else {
            base
        }
    }

    /// The spared time that this move spends.
    pub open spec fn squandered(self) -> i64 {
        if self.time_spared_ms > 0 {
            S::spec_integer(self.time_spared_ms).spec_truncated()
        } else {
            0
        }
    }

    /// The share of one move, with the bonus of the first move of a game.
    pub open spec fn move_share(
        self,
        params: GoParams,
        black_to_move: bool,
        game_ply: u32,
        moves: S,
        weights: LegacyWeights<S>,
    ) -> S {
        let share = self.total_time(params, black_to_move, moves).spec_over(moves);
        if self.first_move_of_game {
            share.spec_times(
                S::spec_one().spec_plus(weights.first_move_bonus).spec_plus(
                    weights.book_ply_bonus.spec_times(
                        S::spec_count(
                            if game_ply < 12 {
                                game_ply
                            } else {
                                12
                            },
                        ),
                    ),
                ),
            )
        } else {
            share
        }
    }

    /// Whether a share is stretched or shortened.
    pub open spec fn is_scaled(self, share: S, weights: LegacyWeights<S>) -> bool {
        S::spec_one().spec_above(self.slowmover) || share.spec_times(self.slowmover).spec_above(
            weights.smart_pruning_tolerance_ms,
        )
    }

    /// The time that a move is given: its share, stretched where it is, and the
    /// spared time, but no more than is on the clock.
    pub open spec fn planned_time(
        self,
        params: GoParams,
        black_to_move: bool,
        game_ply: u32,
        estimated_moves: S,
        weights: LegacyWeights<S>,
    ) -> int {
        let share = self.move_share(
            params,
            black_to_move,
            game_ply,
            moves_to_plan(params, estimated_moves),
            weights,
        );
        let given = (if self.is_scaled(share, weights) {
            share.spec_times(self.slowmover)
        } else {
            share
        }).spec_plus(S::spec_integer(self.squandered()));
        let most = clocked(params.side_time(black_to_move)->Some_0 - self.move_overhead_ms);
        if given.spec_truncated() < most {
            given.spec_truncated() as int
        } else {
            most
        }
    }

    /// What is remembered once a move has been given its time: what is spared is
    /// spent, and what the share is stretched by is owed.
    pub open spec fn after_planning(
        self,
        params: GoParams,
        black_to_move: bool,
        game_ply: u32,
        estimated_moves: S,
        weights: LegacyWeights<S>,
    ) -> Self {
        let share = self.move_share(
            params,
            black_to_move,
            game_ply,
            moves_to_plan(params, estimated_moves),
            weights,
        );
        let left = clocked(self.time_spared_ms - self.squandered());
        LegacyTimeManager {
            first_move_of_game: false,
            time_spared_ms: (if self.is_scaled(share, weights) {
                clocked(
                    left - share.spec_times(
                        self.slowmover.spec_minus(S::spec_one()),
                    ).spec_truncated(),
                )
            } else {
                left
            }) as i64,
            ..self
        }
    }

    /// Plans the time for a move, if the command gives the side to move a clock and
    /// the search is to end by itself.
    pub fn get_stopper(
        &mut self,
        params: &GoParams,
        black_to_move: bool,
        game_ply: u32,
        estimated_moves: S,
        weights: &LegacyWeights<S>,
    ) -> (r: Option<TimeLimitStopper>)
        ensures
            r is Some == (params.side_time(black_to_move) is Some && !params.infinite
                && !params.ponder),
            r is None ==> *final(self) == *old(self),
            r matches Some(stopper) ==> {
                &&& stopper.time_limit_ms == old(self).planned_time(
                    *params,
                    black_to_move,
                    game_ply,
                    estimated_moves,
                    *weights,
                )
                &&& *final(self) == old(self).after_planning(
                    *params,
                    black_to_move,
                    game_ply,
                    estimated_moves,
                    *weights,
                )
            },
    {
        let clock: Option<i64> = if black_to_move {
            params.btime
        } else {
            params.wtime
        };
        let time: i64 = match clock {
            Some(time) => time,
            None => {
                return None;
            },
        };
        if params.infinite || params.ponder {
            return None;
        }
        let given_increment: Option<i64> = if black_to_move {
            params.binc
        } else {
            params.winc
        };
        let increment: i64 = match given_increment {
            Some(value) => if value > 0 {
                value
            } else {
                0
            },
            None => 0,
        };
        let mut moves: S = estimated_moves;
        match params.movestogo {
            Some(value) => {
                if value > 0 && estimated_moves.above(S::integer(value as i64)) {
                    moves = S::integer(value as i64);
                }
            },
            None => {},
        }
        let mut total: S = max_of(
            S::integer(time).plus(S::integer(increment).times(moves.minus(S::one()))).minus(
                S::integer(self.move_overhead_ms),
            ),
            S::zero(),
        );
        let mut squander: i64 = 0;
        if self.time_spared_ms > 0 {
            let spared: S = S::integer(self.time_spared_ms);
            total = max_of(total.minus(spared), S::zero());
            squander = spared.truncated();
        }
        self.time_spared_ms = clock_difference(self.time_spared_ms, squander);
        let mut share: S = total.over(moves);
        if self.first_move_of_game {
            let plies: u32 = if game_ply < 12 {
                game_ply
            } else {
                12
            };
            share = share.times(
                S::one().plus(weights.first_move_bonus).plus(
                    weights.book_ply_bonus.times(S::count(plies)),
                ),
            );
            self.first_move_of_game = false;
        }
        if S::one().above(self.slowmover) || share.times(self.slowmover).above(
            weights.smart_pruning_tolerance_ms,
        ) {
            let stretched: i64 = share.times(self.slowmover.minus(S::one())).truncated();
            self.time_spared_ms = clock_difference(self.time_spared_ms, stretched);
            share = share.times(self.slowmover);
        }
        let planned: i64 = share.plus(S::integer(squander)).truncated();
        let most: i64 = clock_difference(time, self.move_overhead_ms);
        Some(
            TimeLimitStopper::new(
                if planned < most {
                    planned
                } else {
                    most
                },
            ),
        )
    }

    /// Keeps what a search did not use of the time that it was given, or notes what
    /// it used beyond it.
    pub fn on_search_done(&mut self, stopper: &TimeLimitStopper, time_since_movestart: i64)
        ensures
            *final(self) == (LegacyTimeManager {
                time_spared_ms: clocked(
                    old(self).time_spared_ms + clocked(stopper.time_limit_ms - time_since_movestart),
                ) as i64,
                ..*old(self)
            }),
    {
        let unused: i64 = clock_difference(stopper.time_limit_ms(), time_since_movestart);
        self.time_spared_ms = clock_sum(self.time_spared_ms, unused);
    }
}

/// The moves that are still to be made on this clock, as a real number.
pub open spec fn moves_ahead<S: Scalar>(
    value: spec_fn(S) -> real,
    params: GoParams,
    estimated_moves: S,
) -> real {
    match params.movestogo {
        Some(moves) => if moves > 0 && (moves as real) < value(estimated_moves) {
            moves as real
        } else {
            value(estimated_moves)
        },
        None => value(estimated_moves),
    }
}

/// What a side adds to its clock with each move.
pub open spec fn time_added(params: GoParams, black_to_move: bool) -> int {
    match if black_to_move {
        params.binc
    } else {
        params.winc
    } {
        Some(increment) => if increment > 0 {
            increment as int
        } else {
            0
        },
        None => 0,
    }
}

/// The time on the clock of a side.
pub open spec fn time_left(params: GoParams, black_to_move: bool) -> int {
    if black_to_move {
        params.btime->Some_0 as int
    } else {
        params.wtime->Some_0 as int
    }
}

/// The time that a side has for `moves` moves: what is on its clock and what all but the
/// last of them add, less the overhead.
pub open spec fn time_for_moves(
    params: GoParams,
    black_to_move: bool,
    overhead_ms: i64,
    moves: real,
) -> real {
    (time_left(params, black_to_move) as real) + (time_added(params, black_to_move) as real) * (
    moves - 1real) - (overhead_ms as real)
}

/// A move is given time just where its side has a clock and the search is to end by itself.
pub proof fn law_only_clocked_moves_are_given_time<S: Scalar>(
    manager: &mut LegacyTimeManager<S>,
    params: GoParams,
    black_to_move: bool,
    game_ply: u32,
    estimated_moves: S,
    weights: LegacyWeights<S>,
    r: Option<TimeLimitStopper>,
)
    requires
        call_ensures(
            LegacyTimeManager::<S>::get_stopper,
            (manager, &params, black_to_move, game_ply, estimated_moves, &weights),
            r,
        ),
    ensures
        black_to_move ==> (r is Some == (params.btime is Some && !params.infinite
            && !params.ponder)),
        !black_to_move ==> (r is Some == (params.wtime is Some && !params.infinite
            && !params.ponder)),
        r is None ==> *final(manager) == *old(manager),
        r is Some ==> !final(manager).first_move_of_game,
        final(manager).move_overhead_ms == old(manager).move_overhead_ms,
        final(manager).slowmover == old(manager).slowmover,
{
}

/// A move is never given more than is on the clock, less the overhead.
pub proof fn law_planned_time_is_on_the_clock<S: Scalar>(
    manager: &mut LegacyTimeManager<S>,
    params: GoParams,
    black_to_move: bool,
    game_ply: u32,
    estimated_moves: S,
    weights: LegacyWeights<S>,
    stopper: TimeLimitStopper,
)
    requires
        call_ensures(
            LegacyTimeManager::<S>::get_stopper,
            (manager, &params, black_to_move, game_ply, estimated_moves, &weights),
            Some(stopper),
        ),
    ensures
        ({
            let left = time_left(params, black_to_move) - old(manager).move_overhead_ms;
            left >= i64::MIN ==> stopper.time_limit_ms <= left
        }),
{
}

/// Where nothing is rounded, nothing spared and nothing stretched, and the game has begun,
/// the moves ahead share the time for them evenly: as many times the planned time as there
/// are moves is no more than that time, and one millisecond more for each would be too much,
/// unless the clock alone sets the limit.
pub proof fn law_moves_share_the_time_evenly<S: Scalar>(
    value: spec_fn(S) -> real,
    manager: &mut LegacyTimeManager<S>,
    params: GoParams,
    black_to_move: bool,
    game_ply: u32,
    estimated_moves: S,
    weights: LegacyWeights<S>,
    stopper: TimeLimitStopper,
)
    requires
        is_unrounded(value),
        value(estimated_moves) > 0real,
        !old(manager).first_move_of_game,
        old(manager).time_spared_ms <= 0,
        value(old(manager).slowmover) == 1real,
        call_ensures(
            LegacyTimeManager::<S>::get_stopper,
            (manager, &params, black_to_move, game_ply, estimated_moves, &weights),
            Some(stopper),
        ),
    ensures
        ({
            let moves = moves_ahead(value, params, estimated_moves);
            let overhead = old(manager).move_overhead_ms;
            let total = time_for_moves(params, black_to_move, overhead, moves);
            let limit = stopper.time_limit_ms as real;
            &&& total >= 0real ==> limit * moves <= total
            &&& total >= 0real && stopper.time_limit_ms < time_left(params, black_to_move)
                - overhead && stopper.time_limit_ms < i64::MAX ==> total < (limit + 1real) * moves
            &&& total < 0real ==> limit <= 0real
        }),
{
    let plain = *old(manager);
    let share = lemma_plain_plan(
        value,
        plain,
        params,
        black_to_move,
        game_ply,
        estimated_moves,
        weights,
    );
    let moves = moves_ahead(value, params, estimated_moves);
    let total = time_for_moves(params, black_to_move, plain.move_overhead_ms, moves);
    let limit = stopper.time_limit_ms as real;
    if total >= 0real {
        assert(limit <= share);
        assert(limit * moves <= total) by (nonlinear_arith)
            requires
                limit <= share,
                share * moves == total,
                moves > 0real,
        ;
        if share < limit + 1real {
            assert(total < (limit + 1real) * moves) by (nonlinear_arith)
                requires
                    share < limit + 1real,
                    share * moves == total,
                    moves > 0real,
            ;
        }
    }
}

/// The share of a move of a game that has begun, with nothing spared or rounded, and the
/// whole part of the time that it is given for it.
proof fn lemma_plain_share<S: Scalar>(
    value: spec_fn(S) -> real,
    manager: LegacyTimeManager<S>,
    params: GoParams,
    black_to_move: bool,
    game_ply: u32,
    estimated_moves: S,
    weights: LegacyWeights<S>,
) -> (r: (S, i64))
    requires
        is_unrounded(value),
        value(estimated_moves) > 0real,
        !manager.first_move_of_game,
        manager.time_spared_ms <= 0,
    ensures
        ({
            let moves = moves_ahead(value, params, estimated_moves);
            let overhead = manager.move_overhead_ms;
            let total = time_for_moves(params, black_to_move, overhead, moves);
            let planned = manager.planned_time(
                params,
                black_to_move,
                game_ply,
                estimated_moves,
                weights,
            );
            let most = clocked(time_left(params, black_to_move) - overhead);
            let share = value(r.0);
            &&& moves > 0real
            &&& share >= 0real
            &&& total >= 0real ==> share * moves == total
            &&& total <= 0real ==> share == 0real
            &&& r.0 == manager.move_share(
                params,
                black_to_move,
                game_ply,
                moves_to_plan(params, estimated_moves),
                weights,
            )
            &&& is_whole_part(
                if manager.is_scaled(r.0, weights) {
                    share * value(manager.slowmover)
                } else {
                    share
                },
                r.1,
            )
            &&& planned == (if r.1 < most {
                r.1 as int
            } else {
                most
            })
        }),
{
    let moves = moves_to_plan(params, estimated_moves);
    assert(value(moves) == moves_ahead(value, params, estimated_moves));
    let one = S::spec_one();
    let added = S::spec_integer(side_increment(params, black_to_move));
    let clock = S::spec_integer(params.side_time(black_to_move)->Some_0);
    let overhead = S::spec_integer(manager.move_overhead_ms);
    let base = clock.spec_plus(added.spec_times(moves.spec_minus(one))).spec_minus(overhead);
    assert(value(base) == time_for_moves(
        params,
        black_to_move,
        manager.move_overhead_ms,
        value(moves),
    ));
    let total = manager.total_time(params, black_to_move, moves);
    assert(value(total) == (if value(base) > 0real {
        value(base)
    } else {
        0real
    }));
    let part = total.spec_over(moves);
    lemma_quotient(value, total, moves);
    let (x, y, z) = (value(part), value(moves), value(total));
    assert(x >= 0real && (z == 0real ==> x == 0real)) by (nonlinear_arith)
        requires
            x * y == z,
            y > 0real,
            z >= 0real,
    ;
    let stretched = part.spec_times(manager.slowmover);
    let given = (if manager.is_scaled(part, weights) {
        stretched
    } else {
        part
    }).spec_plus(S::spec_integer(manager.squandered()));
    assert(is_whole_part(value(given), given.spec_truncated()));
    (part, given.spec_truncated())
}

/// The plan for a move of a game that has begun, with nothing spared, stretched or rounded:
/// the whole part of its share of the time, but no more than is on the clock.
proof fn lemma_plain_plan<S: Scalar>(
    value: spec_fn(S) -> real,
    manager: LegacyTimeManager<S>,
    params: GoParams,
    black_to_move: bool,
    game_ply: u32,
    estimated_moves: S,
    weights: LegacyWeights<S>,
) -> (share: real)
    requires
        is_unrounded(value),
        value(estimated_moves) > 0real,
        !manager.first_move_of_game,
        manager.time_spared_ms <= 0,
        value(manager.slowmover) == 1real,
    ensures
        ({
            let moves = moves_ahead(value, params, estimated_moves);
            let overhead = manager.move_overhead_ms;
            let total = time_for_moves(params, black_to_move, overhead, moves);
            let planned = manager.planned_time(
                params,
                black_to_move,
                game_ply,
                estimated_moves,
                weights,
            );
            let most = clocked(time_left(params, black_to_move) - overhead);
            &&& moves > 0real
            &&& share >= 0real
            &&& total >= 0real ==> share * moves == total
            &&& total <= 0real ==> share == 0real
            &&& exists|whole: i64| #[trigger] is_whole_part(share, whole) && planned == (if whole < most {
                whole as int
            } else {
                most
            })
        }),
{
    let (share, whole) = lemma_plain_share(
        value,
        manager,
        params,
        black_to_move,
        game_ply,
        estimated_moves,
        weights,
    );
    let (x, slow) = (value(share), value(manager.slowmover));
    assert(x * slow == x) by (nonlinear_arith)
        requires
            slow == 1real,
    ;
    assert(is_whole_part(x, whole));
    x
}

/// With the same clock, more moves ahead never give a move more time, where nothing is
/// rounded, spared or stretched and the game has begun.
pub proof fn law_more_moves_ahead_never_give_more_time<S: Scalar>(
    value: spec_fn(S) -> real,
    manager: &mut LegacyTimeManager<S>,
    other_manager: &mut LegacyTimeManager<S>,
    params: GoParams,
    other_params: GoParams,
    black_to_move: bool,
    game_ply: u32,
    estimated_moves: S,
    other_estimated_moves: S,
    weights: LegacyWeights<S>,
    stopper: TimeLimitStopper,
    other_stopper: TimeLimitStopper,
)
    requires
        is_unrounded(value),
        *old(other_manager) == *old(manager),
        !old(manager).first_move_of_game,
        old(manager).time_spared_ms <= 0,
        value(old(manager).slowmover) == 1real,
        other_params == (GoParams { movestogo: other_params.movestogo, ..params }),
        1real <= moves_ahead(value, params, estimated_moves) <= moves_ahead(
            value,
            other_params,
            other_estimated_moves,
        ),
        call_ensures(
            LegacyTimeManager::<S>::get_stopper,
            (manager, &params, black_to_move, game_ply, estimated_moves, &weights),
            Some(stopper),
        ),
        call_ensures(
            LegacyTimeManager::<S>::get_stopper,
            (
                other_manager,
                &other_params,
                black_to_move,
                game_ply,
                other_estimated_moves,
                &weights,
            ),
            Some(other_stopper),
        ),
    ensures
        other_stopper.time_limit_ms <= stopper.time_limit_ms,
{
    let plain = *old(manager);
    assert(value(estimated_moves) > 0real);
    assert(value(other_estimated_moves) > 0real);
    let a = lemma_plain_plan(
        value,
        plain,
        params,
        black_to_move,
        game_ply,
        estimated_moves,
        weights,
    );
    let b = lemma_plain_plan(
        value,
        plain,
        other_params,
        black_to_move,
        game_ply,
        other_estimated_moves,
        weights,
    );
    let (m, n) = (
        moves_ahead(value, params, estimated_moves),
        moves_ahead(value, other_params, other_estimated_moves),
    );
    let overhead = plain.move_overhead_ms;
    let left = (time_left(params, black_to_move) - overhead) as real;
    let added = time_added(params, black_to_move) as real;
    let (t, u) = (
        time_for_moves(params, black_to_move, overhead, m),
        time_for_moves(other_params, black_to_move, overhead, n),
    );
    assert(t == left + added * (m - 1real));
    assert(u == left + added * (n - 1real));
    assert(b <= a || (a >= left && b >= left)) by (nonlinear_arith)
        requires
            a >= 0real,
            b >= 0real,
            t >= 0real ==> a * m == t,
            u >= 0real ==> b * n == u,
            t == left + added * (m - 1real),
            u == left + added * (n - 1real),
            1real <= m <= n,
            added >= 0real,
    {
        if left < 0real {
        } else {
            assert(t >= 0real && u >= 0real);
            if left < added {
                assert(a * m >= left * m);
                assert(b * n >= left * n);
            } else {
                assert((a - added) * m == left - added);
                assert((b - added) * n == left - added);
                assert((b - added) * n >= (b - added) * m || b < added);
            }
        }
    }
}

proof fn lemma_cut_at_zero_keeps_order<S: Scalar>(
    value: spec_fn(S) -> real,
    round: spec_fn(real) -> real,
    a: S,
    b: S,
)
    requires
        rounds_by(value, round),
        value(a) <= value(b),
    ensures
        0real <= value(larger(a, S::spec_zero())) <= value(larger(b, S::spec_zero())),
{
}

/// A longer time has no smaller total, and none is less than 0.
proof fn lemma_longer_time_has_no_smaller_total<S: Scalar>(
    value: spec_fn(S) -> real,
    round: spec_fn(real) -> real,
    manager: LegacyTimeManager<S>,
    params: GoParams,
    longer: GoParams,
    black_to_move: bool,
    moves: S,
)
    requires
        rounds_by(value, round),
        params.side_time(black_to_move)->Some_0 <= longer.side_time(black_to_move)->Some_0,
        side_increment(params, black_to_move) == side_increment(longer, black_to_move),
    ensures
        0real <= value(manager.total_time(params, black_to_move, moves)) <= value(
            manager.total_time(longer, black_to_move, moves),
        ),
{
    let (c, d) = (
        S::spec_integer(params.side_time(black_to_move)->Some_0),
        S::spec_integer(longer.side_time(black_to_move)->Some_0),
    );
    let rest = S::spec_integer(side_increment(params, black_to_move)).spec_times(
        moves.spec_minus(S::spec_one()),
    );
    let overhead = S::spec_integer(manager.move_overhead_ms);
    let spared = S::spec_integer(manager.time_spared_ms);
    let zero = S::spec_zero();
    let (a, b) = (
        c.spec_plus(rest).spec_minus(overhead),
        d.spec_plus(rest).spec_minus(overhead),
    );
    assert(value(a) <= value(b)) by {
        lemma_integers_keep_order(
            value,
            round,
            params.side_time(black_to_move)->Some_0,
            longer.side_time(black_to_move)->Some_0,
        );
        lemma_shifting_keeps_order(value, round, c, d, rest);
        lemma_shifting_keeps_order(value, round, c.spec_plus(rest), d.spec_plus(rest), overhead);
    }
    let (x, y) = (larger(a, zero), larger(b, zero));
    lemma_cut_at_zero_keeps_order(value, round, a, b);
    assert(value(x.spec_minus(spared)) <= value(y.spec_minus(spared))) by {
        lemma_shifting_keeps_order(value, round, x, y, spared);
    }
    lemma_cut_at_zero_keeps_order(value, round, x.spec_minus(spared), y.spec_minus(spared));
}

/// The factor of the first move of a game is no less than 1, and no less for more plies.
proof fn lemma_first_move_factor<S: Scalar>(
    value: spec_fn(S) -> real,
    round: spec_fn(real) -> real,
    i: u32,
    j: u32,
    weights: LegacyWeights<S>,
)
    requires
        rounds_by(value, round),
        value(weights.first_move_bonus) >= 0real,
        value(weights.book_ply_bonus) >= 0real,
        i <= j,
    ensures
        ({
            let first = S::spec_one().spec_plus(weights.first_move_bonus);
            let less = first.spec_plus(weights.book_ply_bonus.spec_times(S::spec_count(i)));
            let more = first.spec_plus(weights.book_ply_bonus.spec_times(S::spec_count(j)));
            1real <= value(less) <= value(more)
        }),
{
    let one = S::spec_one();
    let first = one.spec_plus(weights.first_move_bonus);
    assert(round(value(one)) <= round(value(one) + value(weights.first_move_bonus)));
    let (c, d) = (S::spec_count(i), S::spec_count(j));
    assert(round(i as real) <= round(j as real));
    lemma_counts(value, round, i);
    lemma_scaling_keeps_order(value, round, c, d, weights.book_ply_bonus);
    lemma_scaling_keeps_sign(value, round, c, weights.book_ply_bonus);
    let (a, b) = (weights.book_ply_bonus.spec_times(c), weights.book_ply_bonus.spec_times(d));
    assert(round(value(first)) <= round(value(first) + value(a)));
    assert(round(value(first) + value(a)) <= round(value(first) + value(b)));
}

/// The share of a move for a longer time is no smaller, and none is less than 0.
proof fn lemma_longer_time_has_no_smaller_share<S: Scalar>(
    value: spec_fn(S) -> real,
    round: spec_fn(real) -> real,
    manager: LegacyTimeManager<S>,
    params: GoParams,
    longer: GoParams,
    black_to_move: bool,
    game_ply: u32,
    moves: S,
    weights: LegacyWeights<S>,
)
    requires
        rounds_by(value, round),
        value(moves) > 0real,
        value(weights.first_move_bonus) >= 0real,
        value(weights.book_ply_bonus) >= 0real,
        params.side_time(black_to_move)->Some_0 <= longer.side_time(black_to_move)->Some_0,
        side_increment(params, black_to_move) == side_increment(longer, black_to_move),
    ensures
        ({
            let share = manager.move_share(params, black_to_move, game_ply, moves, weights);
            let larger_share = manager.move_share(longer, black_to_move, game_ply, moves, weights);
            0real <= value(share) <= value(larger_share)
        }),
{
    let (t, u) = (
        manager.total_time(params, black_to_move, moves),
        manager.total_time(longer, black_to_move, moves),
    );
    lemma_longer_time_has_no_smaller_total(
        value,
        round,
        manager,
        params,
        longer,
        black_to_move,
        moves,
    );
    lemma_scaling_keeps_order(value, round, t, u, moves);
    lemma_scaling_keeps_sign(value, round, t, moves);
    let plies = if game_ply < 12 {
        game_ply
    } else {
        12
    };
    lemma_first_move_factor(value, round, plies, plies, weights);
    let factor = S::spec_one().spec_plus(weights.first_move_bonus).spec_plus(
        weights.book_ply_bonus.spec_times(S::spec_count(plies)),
    );
    let (p, q) = (t.spec_over(moves), u.spec_over(moves));
    lemma_scaling_keeps_order(value, round, p, q, factor);
    lemma_scaling_keeps_sign(value, round, p, factor);
}

/// The time that is given for a larger share is no shorter.
proof fn lemma_larger_share_has_no_shorter_time<S: Scalar>(
    value: spec_fn(S) -> real,
    round: spec_fn(real) -> real,
    manager: LegacyTimeManager<S>,
    share: S,
    larger_share: S,
    weights: LegacyWeights<S>,
)
    requires
        rounds_by(value, round),
        value(manager.slowmover) >= 0real,
        0real <= value(share) <= value(larger_share),
    ensures
        ({
            let spared = S::spec_integer(manager.squandered());
            let given = (if manager.is_scaled(share, weights) {
                share.spec_times(manager.slowmover)
            } else {
                share
            }).spec_plus(spared);
            let more = (if manager.is_scaled(larger_share, weights) {
                larger_share.spec_times(manager.slowmover)
            } else {
                larger_share
            }).spec_plus(spared);
            given.spec_truncated() <= more.spec_truncated()
        }),
{
    let slow = manager.slowmover;
    lemma_scaling_keeps_order(value, round, share, larger_share, slow);
    let (a, b) = (share.spec_times(slow), larger_share.spec_times(slow));
    if value(slow) >= 1real {
        let (x, k) = (value(larger_share), value(slow));
        assert(x <= x * k) by (nonlinear_arith)
            requires
                x >= 0real,
                k >= 1real,
        ;
        assert(round(x) <= round(x * k));
    }
    let given = if manager.is_scaled(share, weights) {
        a
    } else {
        share
    };
    let more = if manager.is_scaled(larger_share, weights) {
        b
    } else {
        larger_share
    };
    assert(value(given) <= value(more));
    let spared = S::spec_integer(manager.squandered());
    assert(round(value(given) + value(spared)) <= round(value(more) + value(spared)));
    let (g, h) = (given.spec_plus(spared), more.spec_plus(spared));
    lemma_whole_parts_keep_order(value(g), value(h), g.spec_truncated(), h.spec_truncated());
}

/// More time on the clock never gives a move less time, however results are rounded.
pub proof fn law_more_time_never_gives_less<S: Scalar>(
    value: spec_fn(S) -> real,
    round: spec_fn(real) -> real,
    manager: &mut LegacyTimeManager<S>,
    other_manager: &mut LegacyTimeManager<S>,
    params: GoParams,
    longer: GoParams,
    black_to_move: bool,
    game_ply: u32,
    estimated_moves: S,
    weights: LegacyWeights<S>,
    stopper: TimeLimitStopper,
    other_stopper: TimeLimitStopper,
)
    requires
        rounds_by(value, round),
        *old(other_manager) == *old(manager),
        value(old(manager).slowmover) >= 0real,
        value(weights.first_move_bonus) >= 0real,
        value(weights.book_ply_bonus) >= 0real,
        value(estimated_moves) > 0real,
        longer == (GoParams { wtime: longer.wtime, btime: longer.btime, ..params }),
        time_left(params, black_to_move) <= time_left(longer, black_to_move),
        call_ensures(
            LegacyTimeManager::<S>::get_stopper,
            (manager, &params, black_to_move, game_ply, estimated_moves, &weights),
            Some(stopper),
        ),
        call_ensures(
            LegacyTimeManager::<S>::get_stopper,
            (other_manager, &longer, black_to_move, game_ply, estimated_moves, &weights),
            Some(other_stopper),
        ),
    ensures
        stopper.time_limit_ms <= other_stopper.time_limit_ms,
{
    let plan = *old(manager);
    let moves = moves_to_plan(params, estimated_moves);
    assert(value(S::spec_one()) == 1real);
    if params.movestogo is Some && params.movestogo->Some_0 > 0 {
        let left = params.movestogo->Some_0 as i64;
        assert(round(1real) <= round(left as real));
        assert(value(S::spec_integer(left)) >= 1real);
    }
    lemma_longer_time_has_no_smaller_share(
        value,
        round,
        plan,
        params,
        longer,
        black_to_move,
        game_ply,
        moves,
        weights,
    );
    lemma_larger_share_has_no_shorter_time(
        value,
        round,
        plan,
        plan.move_share(params, black_to_move, game_ply, moves, weights),
        plan.move_share(longer, black_to_move, game_ply, moves, weights),
        weights,
    );
}

/// The first move of a game is given no less time than a later one in the same place,
/// however results are rounded, and no less the more plies were played from a book.
pub proof fn law_first_move_is_given_no_less<S: Scalar>(
    value: spec_fn(S) -> real,
    round: spec_fn(real) -> real,
    manager: &mut LegacyTimeManager<S>,
    first_manager: &mut LegacyTimeManager<S>,
    params: GoParams,
    black_to_move: bool,
    game_ply: u32,
    first_game_ply: u32,
    estimated_moves: S,
    weights: LegacyWeights<S>,
    stopper: TimeLimitStopper,
    first_stopper: TimeLimitStopper,
)
    requires
        rounds_by(value, round),
        *old(first_manager) == (LegacyTimeManager { first_move_of_game: true, ..*old(manager) }),
        value(old(manager).slowmover) >= 0real,
        value(weights.first_move_bonus) >= 0real,
        value(weights.book_ply_bonus) >= 0real,
        value(estimated_moves) > 0real,
        game_ply <= first_game_ply,
        call_ensures(
            LegacyTimeManager::<S>::get_stopper,
            (manager, &params, black_to_move, game_ply, estimated_moves, &weights),
            Some(stopper),
        ),
        call_ensures(
            LegacyTimeManager::<S>::get_stopper,
            (first_manager, &params, black_to_move, first_game_ply, estimated_moves, &weights),
            Some(first_stopper),
        ),
    ensures
        stopper.time_limit_ms <= first_stopper.time_limit_ms,
{
    let plan = *old(manager);
    let first_plan = *old(first_manager);
    let moves = moves_to_plan(params, estimated_moves);
    assert(value(S::spec_one()) == 1real);
    if params.movestogo is Some && params.movestogo->Some_0 > 0 {
        let left = params.movestogo->Some_0 as i64;
        assert(round(1real) <= round(left as real));
        assert(value(S::spec_integer(left)) >= 1real);
    }
    lemma_longer_time_has_no_smaller_share(
        value,
        round,
        plan,
        params,
        params,
        black_to_move,
        game_ply,
        moves,
        weights,
    );
    let share = plan.move_share(params, black_to_move, game_ply, moves, weights);
    let first_share = first_plan.move_share(params, black_to_move, first_game_ply, moves, weights);
    lemma_bonus_takes_nothing(
        value,
        round,
        plan,
        params,
        black_to_move,
        game_ply,
        first_game_ply,
        moves,
        weights,
    );
    lemma_larger_share_has_no_shorter_time(value, round, plan, share, first_share, weights);
    assert(plan.is_scaled(share, weights) == first_plan.is_scaled(share, weights));
    assert(plan.is_scaled(first_share, weights) == first_plan.is_scaled(first_share, weights));
    assert(plan.squandered() == first_plan.squandered());
}

proof fn lemma_bonus_takes_nothing<S: Scalar>(
    value: spec_fn(S) -> real,
    round: spec_fn(real) -> real,
    manager: LegacyTimeManager<S>,
    params: GoParams,
    black_to_move: bool,
    game_ply: u32,
    first_game_ply: u32,
    moves: S,
    weights: LegacyWeights<S>,
)
    requires
        rounds_by(value, round),
        value(moves) > 0real,
        value(weights.first_move_bonus) >= 0real,
        value(weights.book_ply_bonus) >= 0real,
        game_ply <= first_game_ply,
    ensures
        value(manager.move_share(params, black_to_move, game_ply, moves, weights)) <= value(
            (LegacyTimeManager { first_move_of_game: true, ..manager }).move_share(
                params,
                black_to_move,
                first_game_ply,
                moves,
                weights,
            ),
        ),
{
    let first_manager = LegacyTimeManager { first_move_of_game: true, ..manager };
    let total = manager.total_time(params, black_to_move, moves);
    assert(total == first_manager.total_time(params, black_to_move, moves));
    assert(value(total) >= 0real);
    let part = total.spec_over(moves);
    lemma_scaling_keeps_sign(value, round, total, moves);
    let plies = if first_game_ply < 12 {
        first_game_ply
    } else {
        12
    };
    let fewer = if game_ply < 12 {
        game_ply
    } else {
        12
    };
    lemma_first_move_factor(value, round, fewer, plies, weights);
    let first = S::spec_one().spec_plus(weights.first_move_bonus);
    let x = first.spec_plus(weights.book_ply_bonus.spec_times(S::spec_count(fewer)));
    let y = first.spec_plus(weights.book_ply_bonus.spec_times(S::spec_count(plies)));
    lemma_scaling_keeps_order(value, round, x, y, part);
    let (p, k) = (value(part), value(y));
    assert(p <= p * k) by (nonlinear_arith)
        requires
            p >= 0real,
            k >= 1real,
    ;
    assert(round(p) <= round(p * k));
}

/// Where nothing is rounded, a move spends all that was spared, and what its share is
/// stretched by is owed: with nothing spared before, the limit and what is spared then are
/// together less than two milliseconds from the share, unless the clock sets the limit.
pub proof fn law_stretched_time_is_owed<S: Scalar>(
    value: spec_fn(S) -> real,
    manager: &mut LegacyTimeManager<S>,
    params: GoParams,
    black_to_move: bool,
    game_ply: u32,
    estimated_moves: S,
    weights: LegacyWeights<S>,
    stopper: TimeLimitStopper,
)
    requires
        is_unrounded(value),
        value(estimated_moves) > 0real,
        !old(manager).first_move_of_game,
        old(manager).time_spared_ms == 0,
        value(old(manager).slowmover) >= 0real,
        call_ensures(
            LegacyTimeManager::<S>::get_stopper,
            (manager, &params, black_to_move, game_ply, estimated_moves, &weights),
            Some(stopper),
        ),
        i64::MIN < final(manager).time_spared_ms < i64::MAX,
        stopper.time_limit_ms < i64::MAX,
        stopper.time_limit_ms < time_left(params, black_to_move) - old(manager).move_overhead_ms,
    ensures
        ({
            let moves = moves_ahead(value, params, estimated_moves);
            let overhead = old(manager).move_overhead_ms;
            let total = time_for_moves(params, black_to_move, overhead, moves);
            let kept = (stopper.time_limit_ms + final(manager).time_spared_ms) as real;
            total >= 0real ==> (kept - 2real) * moves < total < (kept + 2real) * moves
        }),
{
    let plain = *old(manager);
    let (share, whole) = lemma_plain_share(
        value,
        plain,
        params,
        black_to_move,
        game_ply,
        estimated_moves,
        weights,
    );
    let moves = moves_ahead(value, params, estimated_moves);
    let total = time_for_moves(params, black_to_move, plain.move_overhead_ms, moves);
    let (x, k) = (value(share), value(plain.slowmover));
    let over = share.spec_times(plain.slowmover.spec_minus(S::spec_one()));
    assert(x * (k - 1real) == x * k - x) by (nonlinear_arith);
    assert(value(over) == x * k - x);
    assert(is_whole_part(value(over), over.spec_truncated()));
    let kept = (stopper.time_limit_ms + final(manager).time_spared_ms) as real;
    assert(kept - 2real < x < kept + 2real);
    assert((kept - 2real) * moves < x * moves < (kept + 2real) * moves) by (nonlinear_arith)
        requires
            kept - 2real < x < kept + 2real,
            moves > 0real,
    ;
}

/// What a search leaves of the time that it was given is spared, and what it takes beyond it
/// is owed, as far as the clock can count.
pub proof fn law_unused_time_is_spared<S: Scalar>(
    manager: &mut LegacyTimeManager<S>,
    stopper: TimeLimitStopper,
    used_ms: i64,
)
    requires
        call_ensures(
            LegacyTimeManager::<S>::on_search_done,
            (manager, &stopper, used_ms),
            (),
        ),
        i64::MIN <= stopper.time_limit_ms - used_ms <= i64::MAX,
        i64::MIN <= old(manager).time_spared_ms + stopper.time_limit_ms - used_ms <= i64::MAX,
    ensures
        final(manager).time_spared_ms - old(manager).time_spared_ms == stopper.time_limit_ms
            - used_ms,
        final(manager).first_move_of_game == old(manager).first_move_of_game,
        final(manager).move_overhead_ms == old(manager).move_overhead_ms,
        final(manager).slowmover == old(manager).slowmover,
{
}

/// In fixed-point numbers that do not saturate, the moves ahead share the time for them
/// evenly to the millisecond, with nothing spared or stretched and the game begun, unless the
/// clock alone sets the limit.
pub proof fn law_fixed_moves_share_the_time_evenly(
    manager: &mut LegacyTimeManager<Fixed>,
    params: GoParams,
    black_to_move: bool,
    game_ply: u32,
    estimated_moves: Fixed,
    weights: LegacyWeights<Fixed>,
    moves: i32,
    stopper: TimeLimitStopper,
)
    requires
        !old(manager).first_move_of_game,
        old(manager).time_spared_ms <= 0,
        old(manager).slowmover == (Fixed { raw: 1_000_000 }),
        moves > 0,
        (params.movestogo is None && estimated_moves.raw == moves * 1_000_000) || (params.movestogo
            == Some(moves) && estimated_moves.raw > moves * 1_000_000),
        0 <= time_left(params, black_to_move) <= 4_000_000_000_000,
        0 <= old(manager).move_overhead_ms <= 4_000_000_000_000,
        time_added(params, black_to_move) * (moves - 1) <= 4_000_000_000_000,
        time_added(params, black_to_move) <= 4_000_000_000_000,
        call_ensures(
            LegacyTimeManager::<Fixed>::get_stopper,
            (manager, &params, black_to_move, game_ply, estimated_moves, &weights),
            Some(stopper),
        ),
    ensures
        ({
            let left = time_left(params, black_to_move) - old(manager).move_overhead_ms;
            let total = left + time_added(params, black_to_move) * (moves - 1);
            &&& total >= 0 && total / moves as int <= left ==> stopper.time_limit_ms == total
                / moves as int
            &&& total >= 0 && total / moves as int > left ==> stopper.time_limit_ms == left
        }),
{
    let plan = *old(manager);
    let planned = moves_to_plan(params, estimated_moves);
    assert(FIXED_UNIT == 1_000_000);
    assert(planned.raw == moves * 1_000_000);
    let added = time_added(params, black_to_move);
    let left = time_left(params, black_to_move) - plan.move_overhead_ms;
    let n = moves as int;
    let rest = added * (n - 1);
    assert(rest >= 0) by (nonlinear_arith)
        requires
            rest == added * (n - 1),
            added >= 0,
            n >= 1,
    ;
    let one = Fixed::spec_one();
    let gain = Fixed::spec_integer(added as i64);
    assert(gain.raw == added * 1_000_000);
    let later = planned.spec_minus(one);
    assert(later.raw == (n - 1) * 1_000_000);
    lemma_whole_product(added, n - 1, rest);
    let product = gain.spec_times(later);
    assert(product.raw == rest * 1_000_000);
    let total = left + rest;
    if total >= 0 {
        let all = plan.total_time(params, black_to_move, planned);
        assert(all.raw == total * 1_000_000);
        let share = all.spec_over(planned);
        let s = lemma_whole_share(total, n);
        assert(share.raw == s);
        assert(share.spec_times(plan.slowmover) == share) by {
            assert((s * 1_000_000) / 1_000_000 == s);
        }
        let given = (if plan.is_scaled(share, weights) {
            share.spec_times(plan.slowmover)
        } else {
            share
        }).spec_plus(Fixed::spec_integer(plan.squandered()));
        assert(given == share);
        assert(given.spec_truncated() == total / n);
    }
}

/// The product of two whole fixed-point numbers.
proof fn lemma_whole_product(a: int, b: int, c: int)
    requires
        a >= 0,
        b >= 0,
        c == a * b,
    ensures
        truncated_quotient((a * 1_000_000) * (b * 1_000_000), 1_000_000) == c * 1_000_000,
{
    assert((a * 1_000_000) * (b * 1_000_000) == (c * 1_000_000) * 1_000_000) by (nonlinear_arith)
        requires
            c == a * b,
    ;
    assert(c >= 0) by (nonlinear_arith)
        requires
            c == a * b,
            a >= 0,
            b >= 0,
    ;
    let product = (a * 1_000_000) * (b * 1_000_000);
    assert(product == (c * 1_000_000) * 1_000_000);
    assert(product >= 0);
    assert(magnitude(product) == product);
    assert(product / 1_000_000 == c * 1_000_000);
}

/// The share of a whole time among whole moves, in millionths.
proof fn lemma_whole_share(total: int, n: int) -> (s: int)
    requires
        0 <= total <= 8_000_000_000_000,
        n > 0,
    ensures
        s == truncated_quotient((total * 1_000_000) * 1_000_000, n * 1_000_000),
        0 <= s <= total * 1_000_000,
        s / 1_000_000 == total / n,
{
    let s = truncated_quotient((total * 1_000_000) * 1_000_000, n * 1_000_000);
    let scaled = total * 1_000_000;
    let q = total / n;
    assert(s == (scaled * 1_000_000) / (n * 1_000_000));
    assert(s * n <= scaled < (s + 1) * n && s >= 0) by (nonlinear_arith)
        requires
            s == (scaled * 1_000_000) / (n * 1_000_000),
            n > 0,
            scaled >= 0,
    ;
    assert(s <= scaled) by (nonlinear_arith)
        requires
            s * n <= scaled,
            s >= 0,
            n > 0,
    ;
    assert(q * n <= total < (q + 1) * n) by (nonlinear_arith)
        requires
            q == total / n,
            n > 0,
    ;
    assert(q * 1_000_000 <= s < (q + 1) * 1_000_000) by (nonlinear_arith)
        requires
            s * n <= total * 1_000_000 < (s + 1) * n,
            q * n <= total < (q + 1) * n,
            n > 0,
    ;
    s
}

/// The larger of two real numbers.
pub open spec fn larger_real(x: real, y: real) -> real {
    if x > y {
        x
    } else {
        y
    }
}

/// Where nothing is rounded, a move is given the whole part of its share, but no more than is
/// on the clock. The share is that of the time for all moves, less what was spared; the first
/// move of a game has a bonus, which grows with the plies from a book up to the twelfth; a
/// slow mover stretches it, unless it is short; and what was spared is spent on top. What a
/// share was stretched by, without its fraction, is then owed.
pub proof fn law_planned_time_in_full<S: Scalar>(
    value: spec_fn(S) -> real,
    manager: &mut LegacyTimeManager<S>,
    params: GoParams,
    black_to_move: bool,
    game_ply: u32,
    estimated_moves: S,
    weights: LegacyWeights<S>,
    share: real,
    whole: i64,
    owed: i64,
    stopper: TimeLimitStopper,
)
    requires
        is_unrounded(value),
        value(estimated_moves) > 0real,
        call_ensures(
            LegacyTimeManager::<S>::get_stopper,
            (manager, &params, black_to_move, game_ply, estimated_moves, &weights),
            Some(stopper),
        ),
        ({
            let moves = moves_ahead(value, params, estimated_moves);
            let all = larger_real(
                time_for_moves(params, black_to_move, old(manager).move_overhead_ms, moves),
                0real,
            );
            share * moves == (if old(manager).time_spared_ms > 0 {
                larger_real(all - (old(manager).time_spared_ms as real), 0real)
            } else {
                all
            })
        }),
        ({
            let plies = if game_ply < 12 {
                game_ply as real
            } else {
                12real
            };
            let own = if old(manager).first_move_of_game {
                share * (1real + value(weights.first_move_bonus) + value(weights.book_ply_bonus)
                    * plies)
            } else {
                share
            };
            let slow = value(old(manager).slowmover);
            let stretched = if slow < 1real || own * slow > value(
                weights.smart_pruning_tolerance_ms,
            ) {
                own * slow
            } else {
                own
            };
            &&& is_whole_part(own * (slow - 1real), owed)
            &&& is_whole_part(
                stretched + (if old(manager).time_spared_ms > 0 {
                    old(manager).time_spared_ms as real
                } else {
                    0real
                }),
                whole,
            )
        }),
        i64::MIN <= time_left(params, black_to_move) - old(manager).move_overhead_ms <= i64::MAX,
    ensures
        ({
            let left = time_left(params, black_to_move) - old(manager).move_overhead_ms;
            let slow = value(old(manager).slowmover);
            let spared = if old(manager).time_spared_ms > 0 {
                0
            } else {
                old(manager).time_spared_ms as int
            };
            &&& stopper.time_limit_ms == (if whole < left {
                whole as int
            } else {
                left
            })
            &&& slow < 1real && i64::MIN <= spared - owed <= i64::MAX
                ==> final(manager).time_spared_ms == spared - owed
            &&& slow == 1real ==> final(manager).time_spared_ms == spared
            &&& slow > 1real && i64::MIN <= spared - owed <= i64::MAX
                ==> final(manager).time_spared_ms == spared || final(manager).time_spared_ms
                == spared - owed
        }),
{
    let plan = *old(manager);
    let moves = moves_to_plan(params, estimated_moves);
    lemma_total_in_full(value, plan, params, black_to_move, estimated_moves);
    let total = plan.total_time(params, black_to_move, moves);
    lemma_quotient(value, total, moves);
    let part = total.spec_over(moves);
    lemma_same_share(value(part), share, value(moves));
    let own = plan.move_share(params, black_to_move, game_ply, moves, weights);
    lemma_own_share(value, plan, params, black_to_move, game_ply, moves, weights);
    let spared = S::spec_integer(plan.squandered());
    lemma_spared_is_spent(value, plan);
    let given = (if plan.is_scaled(own, weights) {
        own.spec_times(plan.slowmover)
    } else {
        own
    }).spec_plus(spared);
    assert(is_whole_part(value(given), given.spec_truncated()));
    lemma_whole_parts_keep_order(value(given), value(given), given.spec_truncated(), whole);
    lemma_whole_parts_keep_order(value(given), value(given), whole, given.spec_truncated());
    let over = own.spec_times(plan.slowmover.spec_minus(S::spec_one()));
    assert(is_whole_part(value(over), over.spec_truncated()));
    lemma_whole_parts_keep_order(value(over), value(over), over.spec_truncated(), owed);
    lemma_whole_parts_keep_order(value(over), value(over), owed, over.spec_truncated());
    if value(plan.slowmover) == 1real {
        let (x, y) = (value(own), value(plan.slowmover) - 1real);
        assert(x * y == 0real) by (nonlinear_arith)
            requires
                y == 0real,
        ;
    }
}

proof fn lemma_same_share(x: real, y: real, moves: real)
    requires
        x * moves == y * moves,
        moves > 0real,
    ensures
        x == y,
{
    assert(x == y) by (nonlinear_arith)
        requires
            x * moves == y * moves,
            moves > 0real,
    ;
}

/// What was spared is spent to the millisecond.
proof fn lemma_spared_is_spent<S: Scalar>(value: spec_fn(S) -> real, manager: LegacyTimeManager<S>)
    requires
        is_unrounded(value),
    ensures
        value(S::spec_integer(manager.squandered())) == (if manager.time_spared_ms > 0 {
            manager.time_spared_ms as real
        } else {
            0real
        }),
        manager.time_spared_ms > 0 ==> manager.squandered() == manager.time_spared_ms,
{
    if manager.time_spared_ms > 0 {
        let x = S::spec_integer(manager.time_spared_ms);
        assert(is_whole_part(value(x), x.spec_truncated()));
        lemma_whole_part_of_integer(manager.time_spared_ms, x.spec_truncated());
        assert(manager.squandered() == manager.time_spared_ms);
    } else {
        assert(manager.squandered() == 0);
    }
}

proof fn lemma_whole_part_of_integer(n: i64, whole: i64)
    requires
        is_whole_part(n as real, whole),
    ensures
        whole == n,
{
}

proof fn lemma_own_share<S: Scalar>(
    value: spec_fn(S) -> real,
    manager: LegacyTimeManager<S>,
    params: GoParams,
    black_to_move: bool,
    game_ply: u32,
    moves: S,
    weights: LegacyWeights<S>,
)
    requires
        is_unrounded(value),
    ensures
        ({
            let part = value(manager.total_time(params, black_to_move, moves).spec_over(moves));
            let plies = if game_ply < 12 {
                game_ply as real
            } else {
                12real
            };
            value(manager.move_share(params, black_to_move, game_ply, moves, weights)) == (
            if manager.first_move_of_game {
                part * (1real + value(weights.first_move_bonus) + value(weights.book_ply_bonus)
                    * plies)
            } else {
                part
            })
        }),
{
    let plies = if game_ply < 12 {
        game_ply
    } else {
        12
    };
    assert(value(S::spec_count(plies)) == plies as real);
}

/// The time for all moves, as a real number.
proof fn lemma_total_in_full<S: Scalar>(
    value: spec_fn(S) -> real,
    manager: LegacyTimeManager<S>,
    params: GoParams,
    black_to_move: bool,
    estimated_moves: S,
)
    requires
        is_unrounded(value),
        value(estimated_moves) > 0real,
    ensures
        ({
            let moves = moves_to_plan(params, estimated_moves);
            let all = larger_real(
                time_for_moves(params, black_to_move, manager.move_overhead_ms, value(moves)),
                0real,
            );
            &&& value(moves) == moves_ahead(value, params, estimated_moves)
            &&& value(moves) > 0real
            &&& value(manager.total_time(params, black_to_move, moves)) == (
            if manager.time_spared_ms > 0 {
                larger_real(all - (manager.time_spared_ms as real), 0real)
            } else {
                all
            })
        }),
{
    let moves = moves_to_plan(params, estimated_moves);
    let added = S::spec_integer(side_increment(params, black_to_move));
    let clock = S::spec_integer(params.side_time(black_to_move)->Some_0);
    let overhead = S::spec_integer(manager.move_overhead_ms);
    let base = clock.spec_plus(added.spec_times(moves.spec_minus(S::spec_one()))).spec_minus(
        overhead,
    );
    assert(value(base) == time_for_moves(
        params,
        black_to_move,
        manager.move_overhead_ms,
        value(moves),
    ));
}

} // verus!
