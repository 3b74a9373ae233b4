//! What numbers stand for: laws about results speak of real numbers.
//!
//! The search reckons with any [`Scalar`]. A law that holds however results are rounded
//! takes a rounding as an argument; one that needs the results themselves asks that
//! nothing is rounded.
use vstd::prelude::*;

use crate::scalar::{
    floor_root, is_floor_root, magnitude, saturated, truncated_quotient, Fixed, Scalar, FIXED_UNIT,
};

verus! {

/// Whether `x` without its fraction is `whole`, at the ends of the range of `whole` as near
/// to it as can be.
pub open spec fn is_whole_part(x: real, whole: i64) -> bool {
    &&& 0real <= x <= i64::MAX as real ==> whole as real <= x < (whole + 1) as real
    &&& i64::MIN as real <= x <= 0real ==> ((whole - 1) as real) < x <= whole as real
    &&& x > i64::MAX as real ==> whole == i64::MAX
    &&& x < i64::MIN as real ==> whole == i64::MIN
}

/// Whether `whole` is the integer nearest to `x`, the one further from 0 where there are two,
/// for an `x` in the range of `whole`.
pub open spec fn is_nearest(x: real, whole: i32) -> bool {
    &&& 0real <= x <= i32::MAX as real ==> 2real * x < (2 * whole + 1) as real && 2real * x >= (2
        * whole - 1) as real
    &&& i32::MIN as real <= x <= 0real ==> 2real * x > (2 * whole - 1) as real && 2real * x <= (2
        * whole + 1) as real
}

/// Whether `x` without its fraction is `n`, as near to it as a count can be.
pub open spec fn is_count_below(x: real, n: u32) -> bool {
    &&& x <= 0real ==> n == 0
    &&& 0real <= x <= u32::MAX as real ==> n as real <= x < (n + 1) as real
    &&& x > u32::MAX as real ==> n == u32::MAX
}

/// Whether each number `x` stands for the real number `value(x)`, and every operation gives
/// the number that its result is rounded to. Rounding keeps the order, and leaves alone what
/// some number stands for.
pub open spec fn rounds_by<S: Scalar>(
    value: spec_fn(S) -> real,
    round: spec_fn(real) -> real,
) -> bool {
    &&& forall|r: real, s: real| r <= s ==> #[trigger] round(r) <= #[trigger] round(s)
    &&& forall|x: S| round(#[trigger] value(x)) == value(x)
    &&& value(S::spec_zero()) == 0real
    &&& value(S::spec_one()) == 1real
    &&& forall|n: u32| value(#[trigger] S::spec_count(n)) == round(n as real)
    &&& forall|n: i64| value(#[trigger] S::spec_integer(n)) == round(n as real)
    &&& forall|a: S, b: S| value(#[trigger] a.spec_plus(b)) == round(value(a) + value(b))
    &&& forall|a: S, b: S| value(#[trigger] a.spec_minus(b)) == round(value(a) - value(b))
    &&& forall|a: S, b: S| value(#[trigger] a.spec_times(b)) == round(value(a) * value(b))
    &&& forall|a: S, b: S|
        value(b) != 0real ==> value(#[trigger] a.spec_over(b)) == round(value(a) / value(b))
    &&& forall|a: S| value(#[trigger] a.spec_negated()) == round(-value(a))
    &&& forall|a: S| value(a) >= 0real ==> value(#[trigger] a.spec_root()) >= 0real
    &&& forall|a: S| value(a) == 0real ==> value(#[trigger] a.spec_root()) == 0real
    &&& forall|a: S, b: S| #[trigger] a.spec_above(b) <==> value(a) > value(b)
    &&& forall|a: S, b: S| #[trigger] a.spec_same(b) <==> value(a) == value(b)
    &&& forall|a: S| is_whole_part(value(a), #[trigger] a.spec_truncated())
    &&& forall|a: S| is_nearest(value(a), #[trigger] a.spec_rounded())
    &&& forall|a: S| is_count_below(value(a), #[trigger] a.spec_floor_count())
}

/// Whether rounding treats both signs alike.
pub open spec fn is_even_rounding(round: spec_fn(real) -> real) -> bool {
    forall|r: real, s: real| r == -s ==> #[trigger] round(r) == -#[trigger] round(s)
}

/// Whether nothing is rounded.
pub open spec fn is_unrounded<S: Scalar>(value: spec_fn(S) -> real) -> bool {
    &&& rounds_by(value, |r: real| r)
    &&& forall|a: S|
        value(a) >= 0real ==> value(#[trigger] a.spec_root()) * value(a.spec_root()) == value(a)
    &&& forall|a: S| value(a) == 1real ==> value(#[trigger] a.spec_log()) == 0real
    &&& forall|a: S, b: S|
        0real < value(a) <= value(b) ==> value(#[trigger] a.spec_log()) <= value(
            #[trigger] b.spec_log(),
        )
}

/// A count is rounded to no less than 0, and to no less than 1 where there is anything.
pub proof fn lemma_counts<S: Scalar>(
    value: spec_fn(S) -> real,
    round: spec_fn(real) -> real,
    n: u32,
)
    requires
        rounds_by(value, round),
    ensures
        value(S::spec_count(n)) >= 0real,
        n > 0 ==> value(S::spec_count(n)) >= 1real,
{
    let (zero, one) = (value(S::spec_zero()), value(S::spec_one()));
    assert(round(zero) == 0real && round(one) == 1real);
    assert(round(zero) <= round(n as real));
    if n > 0 {
        assert(round(one) <= round(n as real));
    }
}

pub proof fn lemma_integers_keep_order<S: Scalar>(
    value: spec_fn(S) -> real,
    round: spec_fn(real) -> real,
    i: i64,
    j: i64,
)
    requires
        rounds_by(value, round),
        i <= j,
    ensures
        value(S::spec_integer(i)) <= value(S::spec_integer(j)),
{
    assert(round(i as real) <= round(j as real));
}

/// Sums and differences with the same number keep the order.
pub proof fn lemma_shifting_keeps_order<S: Scalar>(
    value: spec_fn(S) -> real,
    round: spec_fn(real) -> real,
    a: S,
    b: S,
    k: S,
)
    requires
        rounds_by(value, round),
        value(a) <= value(b),
    ensures
        value(a.spec_plus(k)) <= value(b.spec_plus(k)),
        value(a.spec_minus(k)) <= value(b.spec_minus(k)),
        value(k.spec_minus(b)) <= value(k.spec_minus(a)),
{
    assert(round(value(a) + value(k)) <= round(value(b) + value(k)));
    assert(round(value(a) - value(k)) <= round(value(b) - value(k)));
    assert(round(value(k) - value(b)) <= round(value(k) - value(a)));
}

/// Products and quotients by a number that is not negative keep the order.
pub proof fn lemma_scaling_keeps_order<S: Scalar>(
    value: spec_fn(S) -> real,
    round: spec_fn(real) -> real,
    a: S,
    b: S,
    k: S,
)
    requires
        rounds_by(value, round),
        value(a) <= value(b),
        value(k) >= 0real,
    ensures
        value(a.spec_times(k)) <= value(b.spec_times(k)),
        value(k.spec_times(a)) <= value(k.spec_times(b)),
        value(k) > 0real ==> value(a.spec_over(k)) <= value(b.spec_over(k)),
{
    let (x, y, z) = (value(a), value(b), value(k));
    assert(x * z <= y * z && z * x <= z * y) by (nonlinear_arith)
        requires
            x <= y,
            z >= 0real,
    ;
    if z > 0real {
        assert(x / z <= y / z) by (nonlinear_arith)
            requires
                x <= y,
                z > 0real,
        ;
    }
    assert(round(x * z) <= round(y * z));
    assert(round(z * x) <= round(z * y));
    assert(round(x / z) <= round(y / z) || z == 0real);
}

/// Products and quotients have the sign that their factors give them.
pub proof fn lemma_scaling_keeps_sign<S: Scalar>(
    value: spec_fn(S) -> real,
    round: spec_fn(real) -> real,
    a: S,
    k: S,
)
    requires
        rounds_by(value, round),
        value(k) >= 0real,
    ensures
        value(a) >= 0real ==> value(a.spec_times(k)) >= 0real && value(k.spec_times(a)) >= 0real
            && (value(k) > 0real ==> value(a.spec_over(k)) >= 0real),
        value(a) <= 0real ==> value(a.spec_times(k)) <= 0real && value(k.spec_times(a)) <= 0real
            && (value(k) > 0real ==> value(a.spec_over(k)) <= 0real),
{
    let (x, z) = (value(a), value(k));
    let zero = value(S::spec_zero());
    assert(round(zero) == 0real);
    assert((x >= 0real ==> x * z >= 0real && z * x >= 0real) && (x <= 0real ==> x * z <= 0real && z
        * x <= 0real)) by (nonlinear_arith)
        requires
            z >= 0real,
    ;
    if z > 0real {
        assert((x >= 0real ==> x / z >= 0real) && (x <= 0real ==> x / z <= 0real))
            by (nonlinear_arith)
            requires
                z > 0real,
        ;
    }
    if x >= 0real {
        assert(round(zero) <= round(x * z));
        assert(round(zero) <= round(z * x));
        assert(round(zero) <= round(x / z) || z == 0real);
    }
    if x <= 0real {
        assert(round(x * z) <= round(zero));
        assert(round(z * x) <= round(zero));
        assert(round(x / z) <= round(zero) || z == 0real);
    }
}

/// Where nothing is rounded, a quotient times its divisor is what was divided.
pub proof fn lemma_quotient<S: Scalar>(value: spec_fn(S) -> real, a: S, b: S)
    requires
        is_unrounded(value),
        value(b) != 0real,
    ensures
        value(a.spec_over(b)) * value(b) == value(a),
{
    let (x, y) = (value(a), value(b));
    assert(value(a.spec_over(b)) == x / y);
    assert((x / y) * y == x) by (nonlinear_arith)
        requires
            y != 0real,
    ;
}

/// Whole parts keep the order.
pub proof fn lemma_whole_parts_keep_order(x: real, y: real, a: i64, b: i64)
    requires
        is_whole_part(x, a),
        is_whole_part(y, b),
        x <= y,
    ensures
        a <= b,
{
}

/// Where nothing is rounded, `(n + base) / base` is 1 for no visits, and more the more there
/// are, and so is its logarithm.
pub proof fn lemma_growth<S: Scalar>(value: spec_fn(S) -> real, base: S, i: u32, j: u32)
    requires
        is_unrounded(value),
        value(base) > 0real,
        i <= j,
    ensures
        ({
            let a = S::spec_count(i).spec_plus(base).spec_over(base).spec_log();
            let b = S::spec_count(j).spec_plus(base).spec_over(base).spec_log();
            &&& 0real <= value(a) <= value(b)
            &&& i == 0 ==> value(a) == 0real
        }),
{
    let (c, d) = (S::spec_count(i).spec_plus(base), S::spec_count(j).spec_plus(base));
    lemma_quotient(value, c, base);
    lemma_quotient(value, d, base);
    let (x, y, z) = (value(c.spec_over(base)), value(d.spec_over(base)), value(base));
    let (m, n) = (i as real, j as real);
    assert(1real <= x <= y && (m == 0real ==> x == 1real)) by (nonlinear_arith)
        requires
            x * z == m + z,
            y * z == n + z,
            z > 0real,
            0real <= m <= n,
    ;
    let one = S::spec_one();
    assert(value(one.spec_log()) == 0real);
    assert(value(one.spec_log()) <= value(c.spec_over(base).spec_log()));
    assert(value(c.spec_over(base).spec_log()) <= value(d.spec_over(base).spec_log()));
}

/// Where nothing is rounded, a weight that grows with a logarithm is the constant for no
/// visits, and no less the more there are.
pub proof fn lemma_growing_weight<S: Scalar>(
    value: spec_fn(S) -> real,
    constant: S,
    factor: S,
    base: S,
    i: u32,
    j: u32,
)
    requires
        is_unrounded(value),
        value(factor) >= 0real,
        value(base) > 0real,
        i <= j,
    ensures
        ({
            let a = S::spec_count(i).spec_plus(base).spec_over(base).spec_log();
            let b = S::spec_count(j).spec_plus(base).spec_over(base).spec_log();
            let low = value(constant.spec_plus(factor.spec_times(a)));
            let high = value(constant.spec_plus(factor.spec_times(b)));
            &&& value(constant) <= low <= high
            &&& i == 0 ==> low == value(constant)
        }),
{
    lemma_growth(value, base, i, j);
    let a = S::spec_count(i).spec_plus(base).spec_over(base).spec_log();
    let b = S::spec_count(j).spec_plus(base).spec_over(base).spec_log();
    let (x, y, f) = (value(a), value(b), value(factor));
    assert(0real <= f * x <= f * y && (x == 0real ==> f * x == 0real)) by (nonlinear_arith)
        requires
            0real <= x <= y,
            f >= 0real,
    ;
}

/// A real number without its fraction.
pub open spec fn cut(x: real) -> int {
    if x >= 0real {
        x.floor()
    } else {
        -((-x).floor())
    }
}

/// What a fixed-point number stands for.
pub open spec fn fixed_value() -> spec_fn(Fixed) -> real {
    |x: Fixed| (x.raw as real) / 1000000real
}

/// How fixed-point numbers are rounded: what is smaller than a millionth is cut off, and
/// what does not fit saturates.
pub open spec fn fixed_round() -> spec_fn(real) -> real {
    |r: real| (saturated(cut(r * 1000000real)) as real) / 1000000real
}

proof fn lemma_cut_keeps_order(x: real, y: real)
    requires
        x <= y,
    ensures
        cut(x) <= cut(y),
{
}

proof fn lemma_cut_of_integer(n: int)
    ensures
        cut(n as real) == n,
{
}

proof fn lemma_cut_of_quotient(a: int, b: int)
    requires
        b != 0,
    ensures
        cut((a as real) / (b as real)) == truncated_quotient(a, b),
{
    let (m, n) = (magnitude(a), magnitude(b));
    let q = m / n;
    assert(q * n <= m < (q + 1) * n && q >= 0) by (nonlinear_arith)
        requires
            q == m / n,
            n > 0,
            m >= 0,
    ;
    let x = (m as real) / (n as real);
    assert((q as real) <= x < ((q + 1) as real)) by (nonlinear_arith)
        requires
            x == (m as real) / (n as real),
            q * n <= m < (q + 1) * n,
            n > 0,
    ;
    assert(x.floor() == q);
    let (r, s) = (a as real, b as real);
    assert(r / s == (if (a < 0) == (b < 0) {
        x
    } else {
        -x
    })) by (nonlinear_arith)
        requires
            r == a as real,
            s == b as real,
            x == (m as real) / (n as real),
            m == (if a < 0 {
                -a
            } else {
                a
            }),
            n == (if b < 0 {
                -b
            } else {
                b
            }),
            b != 0,
    ;
    assert(x >= 0real) by (nonlinear_arith)
        requires
            x == (m as real) / (n as real),
            m >= 0,
            n > 0,
    ;
}

proof fn lemma_fixed_scaling(a: Fixed, b: Fixed)
    ensures
        fixed_value()(a.spec_times(b)) == fixed_round()(fixed_value()(a) * fixed_value()(b)),
        fixed_value()(b) != 0real ==> fixed_value()(a.spec_over(b)) == fixed_round()(
            fixed_value()(a) / fixed_value()(b),
        ),
{
    let (x, y) = (a.raw as int, b.raw as int);
    let (v, w) = (fixed_value()(a), fixed_value()(b));
    let product = x * y;
    assert((v * w) * 1000000real == (product as real) / (1000000int as real)) by (nonlinear_arith)
        requires
            v == (x as real) / 1000000real,
            w == (y as real) / 1000000real,
            product == x * y,
    ;
    lemma_cut_of_quotient(product, 1000000);
    if w != 0real {
        let scaled = x * 1000000;
        assert((v / w) * 1000000real == (scaled as real) / (y as real)) by (nonlinear_arith)
            requires
                v == (x as real) / 1000000real,
                w == (y as real) / 1000000real,
                scaled == x * 1000000,
                w != 0real,
        ;
        assert(y != 0);
        lemma_cut_of_quotient(scaled, y);
    }
}

proof fn lemma_fixed_sums(a: Fixed, b: Fixed)
    ensures
        fixed_value()(a.spec_plus(b)) == fixed_round()(fixed_value()(a) + fixed_value()(b)),
        fixed_value()(a.spec_minus(b)) == fixed_round()(fixed_value()(a) - fixed_value()(b)),
        fixed_value()(a.spec_negated()) == fixed_round()(-fixed_value()(a)),
        fixed_round()(fixed_value()(a)) == fixed_value()(a),
{
    lemma_cut_of_integer(a.raw + b.raw);
    lemma_cut_of_integer(a.raw - b.raw);
    lemma_cut_of_integer(-a.raw);
    lemma_cut_of_integer(a.raw as int);
    let (v, w) = (fixed_value()(a), fixed_value()(b));
    assert((v + w) * 1000000real == (a.raw + b.raw) as real);
    assert((v - w) * 1000000real == (a.raw - b.raw) as real);
    assert((-v) * 1000000real == (-a.raw) as real);
    assert(v * 1000000real == a.raw as real);
}

proof fn lemma_fixed_integers(n: u32, i: i64)
    ensures
        fixed_value()(Fixed::spec_count(n)) == fixed_round()(n as real),
        fixed_value()(Fixed::spec_integer(i)) == fixed_round()(i as real),
{
    lemma_cut_of_integer(n * 1000000);
    lemma_cut_of_integer(i * 1000000);
    assert((n as real) * 1000000real == (n * 1000000) as real);
    assert((i as real) * 1000000real == (i * 1000000) as real);
}

proof fn lemma_floor_root_exists(x: int) -> (r: int)
    requires
        x >= 0,
    ensures
        is_floor_root(x, r),
    decreases x,
{
    if x == 0 {
        assert(is_floor_root(0, 0));
        0
    } else {
        let r = lemma_floor_root_exists(x - 1);
        if x < (r + 1) * (r + 1) {
            r
        } else {
            assert((r + 1) * (r + 1) < (r + 2) * (r + 2)) by (nonlinear_arith)
                requires
                    r >= 0,
            ;
            r + 1
        }
    }
}

proof fn lemma_fixed_root(a: Fixed)
    requires
        fixed_value()(a) >= 0real,
    ensures
        fixed_value()(a.spec_root()) >= 0real,
        fixed_value()(a) == 0real ==> fixed_value()(a.spec_root()) == 0real,
{
    assert(a.raw >= 0);
    let r = lemma_floor_root_exists(a.raw as int);
    let f = floor_root(a.raw as int);
    assert(is_floor_root(a.raw as int, f));
    assert(f < 0x1_0000_0000) by (nonlinear_arith)
        requires
            f >= 0,
            f * f <= 0x7fff_ffff_ffff_ffff,
    ;
}

proof fn lemma_fixed_wholes(a: Fixed)
    ensures
        is_whole_part(fixed_value()(a), a.spec_truncated()),
        is_nearest(fixed_value()(a), a.spec_rounded()),
        is_count_below(fixed_value()(a), a.spec_floor_count()),
{
    assert(FIXED_UNIT == 1_000_000);
    let raw = a.raw as int;
    let m = magnitude(raw);
    let q = m / 1_000_000;
    assert(1_000_000 * q <= m < 1_000_000 * q + 1_000_000);
    let whole = truncated_quotient(raw, 1_000_000);
    assert(whole == (if raw < 0 {
        -q
    } else {
        q
    }));
    assert(a.spec_truncated() == whole);
    let half = if raw < 0 {
        raw - 500_000
    } else {
        raw + 500_000
    };
    let h = magnitude(half);
    let p = h / 1_000_000;
    assert(1_000_000 * p <= h < 1_000_000 * p + 1_000_000);
    assert(truncated_quotient(half, 1_000_000) == (if raw < 0 {
        -p
    } else {
        p
    }));
}

/// Fixed-point numbers are rounded by cutting off what is smaller than a millionth.
pub proof fn law_fixed_numbers_are_rounded()
    ensures
        rounds_by(fixed_value(), fixed_round()),
{
    let (value, round) = (fixed_value(), fixed_round());
    assert forall|r: real, s: real| r <= s implies #[trigger] round(r) <= #[trigger] round(s) by {
        lemma_cut_keeps_order(r * 1000000real, s * 1000000real);
    }
    assert forall|x: Fixed| round(#[trigger] value(x)) == value(x) by {
        lemma_fixed_sums(x, x);
    }
    assert forall|n: u32| value(#[trigger] Fixed::spec_count(n)) == round(n as real) by {
        lemma_fixed_integers(n, 0);
    }
    assert forall|n: i64| value(#[trigger] Fixed::spec_integer(n)) == round(n as real) by {
        lemma_fixed_integers(0, n);
    }
    assert forall|a: Fixed, b: Fixed|
        value(#[trigger] a.spec_plus(b)) == round(value(a) + value(b)) by {
        lemma_fixed_sums(a, b);
    }
    assert forall|a: Fixed, b: Fixed|
        value(#[trigger] a.spec_minus(b)) == round(value(a) - value(b)) by {
        lemma_fixed_sums(a, b);
    }
    assert forall|a: Fixed, b: Fixed|
        value(#[trigger] a.spec_times(b)) == round(value(a) * value(b)) by {
        lemma_fixed_scaling(a, b);
    }
    assert forall|a: Fixed, b: Fixed| value(b) != 0real implies value(
        #[trigger] a.spec_over(b),
    ) == round(value(a) / value(b)) by {
        lemma_fixed_scaling(a, b);
    }
    assert forall|a: Fixed| value(#[trigger] a.spec_negated()) == round(-value(a)) by {
        lemma_fixed_sums(a, a);
    }
    assert forall|a: Fixed| value(a) >= 0real implies value(#[trigger] a.spec_root()) >= 0real by {
        lemma_fixed_root(a);
    }
    assert forall|a: Fixed| value(a) == 0real implies value(#[trigger] a.spec_root()) == 0real by {
        lemma_fixed_root(a);
    }
    assert forall|a: Fixed| is_whole_part(value(a), #[trigger] a.spec_truncated()) by {
        lemma_fixed_wholes(a);
    }
    assert forall|a: Fixed| is_nearest(value(a), #[trigger] a.spec_rounded()) by {
        lemma_fixed_wholes(a);
    }
    assert forall|a: Fixed| is_count_below(value(a), #[trigger] a.spec_floor_count()) by {
        lemma_fixed_wholes(a);
    }
}

} // verus!
