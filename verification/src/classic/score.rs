//! Which number a report gives as the score of a line.
use vstd::prelude::*;

use crate::classic::params::{ContemptMode, ScoreType};
use crate::exact::{
    is_even_rounding, is_unrounded, is_whole_part, lemma_counts, lemma_quotient, lemma_scaling_keeps_order,
    lemma_scaling_keeps_sign, lemma_whole_parts_keep_order, rounds_by,
};
use crate::scalar::Scalar;

verus! {

/// The heights of the curves that turn a value into centipawns.
#[derive(Clone, Copy, Debug)]
pub struct ScoreCurves<S> {
    /// The usual curve, at the value that counts draws.
    pub centipawn_with_drawscore: S,
    /// The usual curve.
    pub centipawn: S,
    pub centipawn_2019: S,
    pub centipawn_2018: S,
    /// The curve that stands in for an expected advantage.
    pub mu_centipawn: S,
}

/// Whether the chances of a line are rescaled before they are shown.
pub fn rescales_display<S: Scalar>(
    score_type: ScoreType,
    wdl_rescale_diff: S,
    contempt_mode: ContemptMode,
) -> (r: bool)
    ensures
        r == (score_type == ScoreType::WdlMu || (!wdl_rescale_diff.spec_same(S::spec_zero())
            && contempt_mode != ContemptMode::Disable)),
{
    score_type == ScoreType::WdlMu || (!wdl_rescale_diff.same(S::zero()) && contempt_mode
        != ContemptMode::Disable)
}

/// The direction in which the chances are rescaled.
pub fn rescale_sign<S: Scalar>(contempt_mode: ContemptMode, root_is_black: bool) -> (r: S)
    ensures
        r == (if (contempt_mode == ContemptMode::Black) == root_is_black {
            S::spec_one()
        } else {
            S::spec_one().spec_negated()
        }),
{
    if (contempt_mode == ContemptMode::Black) == root_is_black {
        S::one()
    } else {
        S::one().negated()
    }
}

/// How far the chances are rescaled: the share of the difference that is shown.
pub fn displayed_diff<S: Scalar>(
    contempt_mode: ContemptMode,
    wdl_rescale_diff: S,
    wdl_eval_objectivity: S,
) -> (r: S)
    ensures
        r == (if contempt_mode == ContemptMode::Disable {
            S::spec_zero()
        } else {
            wdl_rescale_diff.spec_times(wdl_eval_objectivity)
        }),
{
    if contempt_mode == ContemptMode::Disable {
        S::zero()
    } else {
        wdl_rescale_diff.times(wdl_eval_objectivity)
    }
}

/// The size of a number.
pub open spec fn spec_size<S: Scalar>(x: S) -> S {
    if S::spec_zero().spec_above(x) {
        x.spec_negated()
    } else {
        x
    }
}

fn size<S: Scalar>(x: S) -> (r: S)
    ensures
        r == spec_size(x),
{
    if S::zero().above(x) {
        x.negated()
    } else {
        x
    }
}

/// A number without its fraction, brought into the range of a score.
pub open spec fn spec_score<S: Scalar>(x: S) -> i32 {
    if x.spec_truncated() > i32::MAX {
        i32::MAX
    } else if x.spec_truncated() < i32::MIN {
        i32::MIN
    } else {
        x.spec_truncated() as i32
    }
}

fn score<S: Scalar>(x: S) -> (r: i32)
    ensures
        r == spec_score(x),
{
    let whole: i64 = x.truncated();
    if whole > i32::MAX as i64 {
        i32::MAX
    } else if whole < i32::MIN as i64 {
        i32::MIN
    } else {
        whole as i32
    }
}

/// Whether the expected advantage `mu` is shown: the network tells chances, they are
/// not all but certain, and the advantage is small or smaller than the curve.
pub open spec fn shows_mu<S: Scalar>(wl: S, d: S, has_wdl: bool, mu: S, mu_centipawn: S) -> bool {
    &&& has_wdl
    &&& !mu.spec_same(S::spec_zero())
    &&& S::spec_count(996).spec_over(S::spec_count(1000)).spec_above(spec_size(wl).spec_plus(d))
    &&& (S::spec_one().spec_above(spec_size(mu)) || spec_size(
        S::spec_count(100).spec_times(mu),
    ).spec_above(spec_size(mu_centipawn)))
}

/// The score of a line with value `wl`, draw share `d` and counted value `q`.
pub open spec fn spec_score_from_wdl<S: Scalar>(
    score_type: ScoreType,
    wl: S,
    d: S,
    q: S,
    has_wdl: bool,
    mu: S,
    curves: ScoreCurves<S>,
) -> i32 {
    match score_type {
        ScoreType::CentipawnWithDrawscore => spec_score(curves.centipawn_with_drawscore),
        ScoreType::Centipawn => spec_score(curves.centipawn),
        ScoreType::Centipawn2019 => spec_score(curves.centipawn_2019),
        ScoreType::Centipawn2018 => spec_score(curves.centipawn_2018),
        ScoreType::WinPercentage => spec_score(
            wl.spec_times(S::spec_count(5000)).spec_plus(S::spec_count(5000)),
        ),
        ScoreType::Q => spec_score(q.spec_times(S::spec_count(10_000))),
        ScoreType::WinLoss => spec_score(wl.spec_times(S::spec_count(10_000))),
        ScoreType::WdlMu => if shows_mu(wl, d, has_wdl, mu, curves.mu_centipawn) {
            spec_score(S::spec_count(100).spec_times(mu))
        } else {
            spec_score(curves.mu_centipawn)
        },
    }
}

/// The score of a line with value `wl`, draw share `d` and counted value `q`.
pub fn score_from_wdl<S: Scalar>(
    score_type: ScoreType,
    wl: S,
    d: S,
    q: S,
    has_wdl: bool,
    mu: S,
    curves: &ScoreCurves<S>,
) -> (r: i32)
    ensures
        r == spec_score_from_wdl(score_type, wl, d, q, has_wdl, mu, *curves),
{
    match score_type {
        ScoreType::CentipawnWithDrawscore => score(curves.centipawn_with_drawscore),
        ScoreType::Centipawn => score(curves.centipawn),
        ScoreType::Centipawn2019 => score(curves.centipawn_2019),
        ScoreType::Centipawn2018 => score(curves.centipawn_2018),
        ScoreType::WinPercentage => score(wl.times(S::count(5000)).plus(S::count(5000))),
        ScoreType::Q => score(q.times(S::count(10_000))),
        ScoreType::WinLoss => score(wl.times(S::count(10_000))),
        ScoreType::WdlMu => {
            if has_wdl && !mu.same(S::zero()) && S::count(996).over(S::count(1000)).above(
                size(wl).plus(d),
            ) && (S::one().above(size(mu)) || size(S::count(100).times(mu)).above(
                size(curves.mu_centipawn),
            )) {
                score(S::count(100).times(mu))
            } else {
                score(curves.mu_centipawn)
            }
        },
    }
}

/// Where nothing is rounded, a score is the whole part of the number that its type asks for,
/// in the range of a score: the height of a curve; ten thousand times a value; five thousand
/// times the value above -1; or a hundred times the expected advantage. That is shown where
/// the network tells chances, it is not 0, draws and the value leave more than four in a
/// thousand open, and it is smaller than 1 or shows more than the curve.
pub proof fn law_score_is_a_whole_part<S: Scalar>(
    value: spec_fn(S) -> real,
    score_type: ScoreType,
    wl: S,
    d: S,
    q: S,
    has_wdl: bool,
    mu: S,
    curves: ScoreCurves<S>,
    score: i32,
)
    requires
        is_unrounded(value),
        call_ensures(score_from_wdl::<S>, (score_type, wl, d, q, has_wdl, mu, &curves), score),
    ensures
        ({
            let size = |x: real|
                if x < 0real {
                    -x
                } else {
                    x
                };
            let shown = match score_type {
                ScoreType::CentipawnWithDrawscore => value(curves.centipawn_with_drawscore),
                ScoreType::Centipawn => value(curves.centipawn),
                ScoreType::Centipawn2019 => value(curves.centipawn_2019),
                ScoreType::Centipawn2018 => value(curves.centipawn_2018),
                ScoreType::WinPercentage => 5000real * (value(wl) + 1real),
                ScoreType::Q => 10000real * value(q),
                ScoreType::WinLoss => 10000real * value(wl),
                ScoreType::WdlMu => if has_wdl && value(mu) != 0real && 1000real * (size(value(wl))
                    + value(d)) < 996real && (size(value(mu)) < 1real || 100real * size(value(mu))
                    > size(value(curves.mu_centipawn))) {
                    100real * value(mu)
                } else {
                    value(curves.mu_centipawn)
                },
            };
            &&& 0real <= shown <= i32::MAX as real ==> score as real <= shown < (score + 1) as real
            &&& i32::MIN as real <= shown <= 0real ==> ((score - 1) as real) < shown <= score as real
            &&& shown > i32::MAX as real ==> score == i32::MAX
            &&& shown < i32::MIN as real ==> score == i32::MIN
        }),
{
    let (w, v, x) = (value(wl), value(q), value(mu));
    let (five, ten) = (value(S::spec_count(5000)), value(S::spec_count(10_000)));
    let hundred = value(S::spec_count(100));
    assert(w * five == 5000real * w && w * ten == 10000real * w && v * ten == 10000real * v
        && hundred * x == 100real * x) by (nonlinear_arith)
        requires
            five == 5000real,
            ten == 10000real,
            hundred == 100real,
    ;
    let (most, all) = (S::spec_count(996), S::spec_count(1000));
    lemma_quotient(value, most, all);
    let limit = value(most.spec_over(all));
    assert(1000real * limit == 996real) by (nonlinear_arith)
        requires
            limit * value(all) == 996real,
            value(all) == 1000real,
    ;
}

/// A greater number gives no lower score.
proof fn lemma_scores_keep_order<S: Scalar>(
    value: spec_fn(S) -> real,
    round: spec_fn(real) -> real,
    a: S,
    b: S,
)
    requires
        rounds_by(value, round),
        value(a) <= value(b),
    ensures
        spec_score(a) <= spec_score(b),
{
    lemma_whole_parts_keep_order(value(a), value(b), a.spec_truncated(), b.spec_truncated());
}

/// Opposite numbers give opposite scores, and the lowest score is answered by the highest.
proof fn lemma_opposite_scores<S: Scalar>(
    value: spec_fn(S) -> real,
    round: spec_fn(real) -> real,
    a: S,
    b: S,
)
    requires
        rounds_by(value, round),
        value(b) == -value(a),
    ensures
        spec_score(a) > i32::MIN && spec_score(b) > i32::MIN ==> spec_score(b) == -spec_score(a),
        spec_score(a) == i32::MIN ==> spec_score(b) == i32::MAX,
        spec_score(b) == i32::MIN ==> spec_score(a) == i32::MAX,
{
    assert(is_whole_part(value(a), a.spec_truncated()));
    assert(is_whole_part(value(b), b.spec_truncated()));
}

proof fn lemma_opposite_products<S: Scalar>(
    value: spec_fn(S) -> real,
    round: spec_fn(real) -> real,
    a: S,
    b: S,
    k: S,
)
    requires
        rounds_by(value, round),
        is_even_rounding(round),
        value(b) == -value(a),
    ensures
        value(b.spec_times(k)) == -value(a.spec_times(k)),
        value(k.spec_times(b)) == -value(k.spec_times(a)),
{
    let (x, y, z) = (value(a), value(b), value(k));
    assert(y * z == -(x * z) && z * y == -(z * x)) by (nonlinear_arith)
        requires
            y == -x,
    ;
    assert(round(y * z) == -round(x * z));
    assert(round(z * y) == -round(z * x));
}

proof fn lemma_opposite_sizes<S: Scalar>(
    value: spec_fn(S) -> real,
    round: spec_fn(real) -> real,
    a: S,
    b: S,
)
    requires
        rounds_by(value, round),
        is_even_rounding(round),
        value(b) == -value(a),
    ensures
        value(spec_size(a)) == value(spec_size(b)),
        value(a) == 0real <==> value(b) == 0real,
{
    let (x, y) = (value(a), value(b));
    assert(round(-x) == -round(x));
    assert(round(-y) == -round(y));
}

/// A line seen by the other player has the opposite score, however results are rounded, as
/// long as that treats both sides alike. Only a score that counts wins from 0 has no
/// opposite, and the lowest score of all is answered by the highest.
pub proof fn law_mirrored_line_has_the_opposite_score<S: Scalar>(
    value: spec_fn(S) -> real,
    round: spec_fn(real) -> real,
    score_type: ScoreType,
    d: S,
    has_wdl: bool,
    wl: S,
    q: S,
    mu: S,
    curves: ScoreCurves<S>,
    score: i32,
    other_wl: S,
    other_q: S,
    other_mu: S,
    other_curves: ScoreCurves<S>,
    other_score: i32,
)
    requires
        rounds_by(value, round),
        is_even_rounding(round),
        score_type != ScoreType::WinPercentage,
        value(other_wl) == -value(wl),
        value(other_q) == -value(q),
        value(other_mu) == -value(mu),
        value(other_curves.centipawn_with_drawscore) == -value(curves.centipawn_with_drawscore),
        value(other_curves.centipawn) == -value(curves.centipawn),
        value(other_curves.centipawn_2019) == -value(curves.centipawn_2019),
        value(other_curves.centipawn_2018) == -value(curves.centipawn_2018),
        value(other_curves.mu_centipawn) == -value(curves.mu_centipawn),
        call_ensures(score_from_wdl::<S>, (score_type, wl, d, q, has_wdl, mu, &curves), score),
        call_ensures(
            score_from_wdl::<S>,
            (score_type, other_wl, d, other_q, has_wdl, other_mu, &other_curves),
            other_score,
        ),
    ensures
        score > i32::MIN && other_score > i32::MIN ==> other_score == -score,
        score == i32::MIN ==> other_score == i32::MAX,
        other_score == i32::MIN ==> score == i32::MAX,
{
    let (ten, hundred) = (S::spec_count(10_000), S::spec_count(100));
    match score_type {
        ScoreType::CentipawnWithDrawscore => {
            lemma_opposite_scores(
                value,
                round,
                curves.centipawn_with_drawscore,
                other_curves.centipawn_with_drawscore,
            );
        },
        ScoreType::Centipawn => {
            lemma_opposite_scores(value, round, curves.centipawn, other_curves.centipawn);
        },
        ScoreType::Centipawn2019 => {
            lemma_opposite_scores(
                value,
                round,
                curves.centipawn_2019,
                other_curves.centipawn_2019,
            );
        },
        ScoreType::Centipawn2018 => {
            lemma_opposite_scores(
                value,
                round,
                curves.centipawn_2018,
                other_curves.centipawn_2018,
            );
        },
        ScoreType::WinPercentage => {},
        ScoreType::Q => {
            lemma_opposite_products(value, round, q, other_q, ten);
            lemma_opposite_scores(value, round, q.spec_times(ten), other_q.spec_times(ten));
        },
        ScoreType::WinLoss => {
            lemma_opposite_products(value, round, wl, other_wl, ten);
            lemma_opposite_scores(value, round, wl.spec_times(ten), other_wl.spec_times(ten));
        },
        ScoreType::WdlMu => {
            lemma_opposite_products(value, round, mu, other_mu, hundred);
            let (x, y) = (hundred.spec_times(mu), hundred.spec_times(other_mu));
            lemma_opposite_scores(value, round, x, y);
            lemma_opposite_scores(value, round, curves.mu_centipawn, other_curves.mu_centipawn);
            lemma_opposite_sizes(value, round, wl, other_wl);
            lemma_opposite_sizes(value, round, mu, other_mu);
            lemma_opposite_sizes(value, round, x, y);
            lemma_opposite_sizes(value, round, curves.mu_centipawn, other_curves.mu_centipawn);
            assert(shows_mu(wl, d, has_wdl, mu, curves.mu_centipawn) == shows_mu(
                other_wl,
                d,
                has_wdl,
                other_mu,
                other_curves.mu_centipawn,
            ));
        },
    }
}

/// An advantage and a curve that both speak for one side give that side the score, however
/// results are rounded.
pub proof fn law_score_takes_the_side_of_the_advantage<S: Scalar>(
    value: spec_fn(S) -> real,
    round: spec_fn(real) -> real,
    wl: S,
    d: S,
    q: S,
    has_wdl: bool,
    mu: S,
    curves: ScoreCurves<S>,
    score: i32,
)
    requires
        rounds_by(value, round),
        call_ensures(
            score_from_wdl::<S>,
            (ScoreType::WdlMu, wl, d, q, has_wdl, mu, &curves),
            score,
        ),
    ensures
        value(mu) <= 0real && value(curves.mu_centipawn) <= 0real ==> score <= 0,
        value(mu) >= 0real && value(curves.mu_centipawn) >= 0real ==> score >= 0,
{
    lemma_counts(value, round, 100);
    lemma_scaling_keeps_sign(value, round, mu, S::spec_count(100));
}

/// A line that is better in every respect has no lower score, however results are rounded.
pub proof fn law_better_line_has_no_lower_score<S: Scalar>(
    value: spec_fn(S) -> real,
    round: spec_fn(real) -> real,
    score_type: ScoreType,
    has_wdl: bool,
    wl: S,
    d: S,
    q: S,
    mu: S,
    curves: ScoreCurves<S>,
    score: i32,
    better_wl: S,
    better_d: S,
    better_q: S,
    better_mu: S,
    better_curves: ScoreCurves<S>,
    better_score: i32,
)
    requires
        rounds_by(value, round),
        score_type != ScoreType::WdlMu,
        value(wl) <= value(better_wl),
        value(q) <= value(better_q),
        value(curves.centipawn_with_drawscore) <= value(better_curves.centipawn_with_drawscore),
        value(curves.centipawn) <= value(better_curves.centipawn),
        value(curves.centipawn_2019) <= value(better_curves.centipawn_2019),
        value(curves.centipawn_2018) <= value(better_curves.centipawn_2018),
        call_ensures(score_from_wdl::<S>, (score_type, wl, d, q, has_wdl, mu, &curves), score),
        call_ensures(
            score_from_wdl::<S>,
            (score_type, better_wl, better_d, better_q, has_wdl, better_mu, &better_curves),
            better_score,
        ),
    ensures
        score <= better_score,
{
    let (five, ten) = (S::spec_count(5000), S::spec_count(10_000));
    match score_type {
        ScoreType::WinPercentage => {
            lemma_counts(value, round, 5000);
            lemma_scaling_keeps_order(value, round, wl, better_wl, five);
            let (a, b) = (wl.spec_times(five), better_wl.spec_times(five));
            assert(round(value(a) + value(five)) <= round(value(b) + value(five)));
            lemma_scores_keep_order(value, round, a.spec_plus(five), b.spec_plus(five));
        },
        ScoreType::Q => {
            lemma_counts(value, round, 10_000);
            lemma_scaling_keeps_order(value, round, q, better_q, ten);
            lemma_scores_keep_order(value, round, q.spec_times(ten), better_q.spec_times(ten));
        },
        ScoreType::WinLoss => {
            lemma_counts(value, round, 10_000);
            lemma_scaling_keeps_order(value, round, wl, better_wl, ten);
            lemma_scores_keep_order(value, round, wl.spec_times(ten), better_wl.spec_times(ten));
        },
        _ => {
            lemma_scores_keep_order(
                value,
                round,
                curves.centipawn_with_drawscore,
                better_curves.centipawn_with_drawscore,
            );
            lemma_scores_keep_order(value, round, curves.centipawn, better_curves.centipawn);
            lemma_scores_keep_order(
                value,
                round,
                curves.centipawn_2019,
                better_curves.centipawn_2019,
            );
            lemma_scores_keep_order(
                value,
                round,
                curves.centipawn_2018,
                better_curves.centipawn_2018,
            );
        },
    }
}

} // verus!
