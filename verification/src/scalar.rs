//! The arithmetic in which values, draws, plies and priors are computed.
//!
//! The search never depends on a particular number representation: it adds,
//! scales and compares numbers through [`Scalar`]. Each operation has a
//! specification function, so a contract can name the exact expression that a
//! function evaluates, in the order in which it evaluates it. [`Fixed`] is the
//! library's own instance.
use vstd::prelude::*;

verus! {

/// A number type. Every operation is a function of its arguments.
pub trait Scalar: Copy {
    spec fn spec_zero() -> Self;

    spec fn spec_one() -> Self;

    spec fn spec_count(n: u32) -> Self;

    spec fn spec_integer(n: i64) -> Self;

    spec fn spec_from_bits(bits: u32) -> Self;

    spec fn spec_plus(self, other: Self) -> Self;

    spec fn spec_minus(self, other: Self) -> Self;

    spec fn spec_times(self, other: Self) -> Self;

    spec fn spec_over(self, other: Self) -> Self;

    spec fn spec_negated(self) -> Self;

    spec fn spec_root(self) -> Self;

    spec fn spec_log(self) -> Self;

    spec fn spec_above(self, other: Self) -> bool;

    spec fn spec_same(self, other: Self) -> bool;

    spec fn spec_total_key(self) -> i64;

    spec fn spec_floor_count(self) -> u32;

    spec fn spec_rounded(self) -> i32;

    spec fn spec_truncated(self) -> i64;

    /// The number 0.
    fn zero() -> (r: Self)
        ensures
            r == Self::spec_zero(),
    ;

    /// The number 1.
    fn one() -> (r: Self)
        ensures
            r == Self::spec_one(),
    ;

    /// The number nearest to a count.
    fn count(n: u32) -> (r: Self)
        ensures
            r == Self::spec_count(n),
    ;

    /// The number nearest to an integer.
    fn integer(n: i64) -> (r: Self)
        ensures
            r == Self::spec_integer(n),
    ;

    /// The number that a 32-bit pattern encodes.
    fn from_bits(bits: u32) -> (r: Self)
        ensures
            r == Self::spec_from_bits(bits),
    ;

    /// The sum.
    fn plus(self, other: Self) -> (r: Self)
        ensures
            r == self.spec_plus(other),
    ;

    /// The difference.
    fn minus(self, other: Self) -> (r: Self)
        ensures
            r == self.spec_minus(other),
    ;

    /// The product.
    fn times(self, other: Self) -> (r: Self)
        ensures
            r == self.spec_times(other),
    ;

    /// The quotient.
    fn over(self, other: Self) -> (r: Self)
        ensures
            r == self.spec_over(other),
    ;

    /// The number with its sign changed.
    fn negated(self) -> (r: Self)
        ensures
            r == self.spec_negated(),
    ;

    /// The square root.
    fn root(self) -> (r: Self)
        ensures
            r == self.spec_root(),
    ;

    /// The natural logarithm.
    fn log(self) -> (r: Self)
        ensures
            r == self.spec_log(),
    ;

    /// Whether this number is greater than the other.
    fn above(self, other: Self) -> (r: bool)
        ensures
            r == self.spec_above(other),
    ;

    /// Whether the two numbers are numerically equal.
    fn same(self, other: Self) -> (r: bool)
        ensures
            r == self.spec_same(other),
    ;

    /// An integer by which the numbers are totally ordered.
    fn total_key(self) -> (r: i64)
        ensures
            r == self.spec_total_key(),
    ;

    /// The number truncated to a count, saturating at both ends.
    fn floor_count(self) -> (r: u32)
        ensures
            r == self.spec_floor_count(),
    ;

    /// The number rounded to the nearest integer, saturating at both ends.
    fn rounded(self) -> (r: i32)
        ensures
            r == self.spec_rounded(),
    ;

    /// The number truncated towards zero, saturating at both ends.
    fn truncated(self) -> (r: i64)
        ensures
            r == self.spec_truncated(),
    ;
}

/// The larger of two numbers; the second where neither is greater.
pub open spec fn larger<S: Scalar>(a: S, b: S) -> S {
    if a.spec_above(b) {
        a
    } else {
        b
    }
}

/// Returns the larger of two numbers.
pub fn max_of<S: Scalar>(a: S, b: S) -> (r: S)
    ensures
        r == larger(a, b),
{
    if a.above(b) {
        a
    } else {
        b
    }
}

/// The smaller of two numbers; the second where neither is smaller.
pub open spec fn smaller<S: Scalar>(a: S, b: S) -> S {
    if b.spec_above(a) {
        a
    } else {
        b
    }
}

/// Returns the smaller of two numbers.
pub fn min_of<S: Scalar>(a: S, b: S) -> (r: S)
    ensures
        r == smaller(a, b),
{
    if b.above(a) {
        a
    } else {
        b
    }
}

/// Whether a number is no greater than another.
pub open spec fn at_most<S: Scalar>(a: S, b: S) -> bool {
    b.spec_above(a) || b.spec_same(a)
}

/// Whether a number is no greater than another.
pub fn is_at_most<S: Scalar>(a: S, b: S) -> (r: bool)
    ensures
        r == at_most(a, b),
{
    b.above(a) || b.same(a)
}

/// Whether a number lies in a range, both ends taken in.
pub open spec fn within<S: Scalar>(low: S, x: S, high: S) -> bool {
    at_most(low, x) && at_most(x, high)
}

/// A number brought into a range.
pub open spec fn clamped<S: Scalar>(low: S, x: S, high: S) -> S {
    if low.spec_above(x) {
        low
    } else if x.spec_above(high) {
        high
    } else {
        x
    }
}

/// Brings a number into a range.
pub fn clamp_to<S: Scalar>(low: S, x: S, high: S) -> (r: S)
    ensures
        r == clamped(low, x, high),
{
    if low.above(x) {
        low
    } else if x.above(high) {
        high
    } else {
        x
    }
}

/// Units of a [`Fixed`] that make up the number 1.
pub const FIXED_UNIT: i64 = 1_000_000;

/// A fixed-point number, in millionths. Results that do not fit saturate.
#[derive(Clone, Copy, Debug, PartialEq, Eq, Structural)]
pub struct Fixed {
    pub raw: i64,
}

/// An integer brought into the range of a [`Fixed`].
pub open spec fn saturated(x: int) -> int {
    if x > i64::MAX {
        i64::MAX as int
    } else if x < i64::MIN {
        i64::MIN as int
    } else {
        x
    }
}

/// Integer division that truncates towards zero; 0 where the divisor is 0.
pub open spec fn truncated_quotient(a: int, b: int) -> int {
    if b == 0 {
        0
    } else if (a < 0) == (b < 0) {
        magnitude(a) / magnitude(b)
    } else {
        -(magnitude(a) / magnitude(b))
    }
}

/// The absolute value.
pub open spec fn magnitude(a: int) -> int {
    if a < 0 {
        -a
    } else {
        a
    }
}

/// The number of times that `x` can be halved before it drops below 2.
pub open spec fn halvings(x: int) -> nat
    decreases x,
{
    if x < 2 {
        0
    } else {
        1 + halvings(x / 2)
    }
}

/// The largest integer whose square does not exceed `x`.
pub open spec fn floor_root(x: int) -> int {
    choose|r: int| is_floor_root(x, r)
}

/// Whether `r` is the largest integer whose square does not exceed `x`.
pub open spec fn is_floor_root(x: int, r: int) -> bool {
    0 <= r && r * r <= x < (r + 1) * (r + 1)
}

proof fn lemma_floor_root_unique(x: int, a: int, b: int)
    requires
        is_floor_root(x, a),
        is_floor_root(x, b),
    ensures
        a == b,
{
    if a < b {
        assert((a + 1) * (a + 1) <= b * b) by (nonlinear_arith)
            requires
                0 <= a < b,
        ;
    } else if b < a {
        assert((b + 1) * (b + 1) <= a * a) by (nonlinear_arith)
            requires
                0 <= b < a,
        ;
    }
}

fn saturate(x: i128) -> (r: i64)
    ensures
        r == saturated(x as int),
{
    if x > i64::MAX as i128 {
        i64::MAX
    } else if x < i64::MIN as i128 {
        i64::MIN
    } else {
        x as i64
    }
}

fn absolute(x: i128) -> (r: u128)
    requires
        x > i128::MIN,
    ensures
        r == magnitude(x as int),
{
    if x < 0 {
        (-x) as u128
    } else {
        x as u128
    }
}

/// Divides, truncating towards zero.
fn divide(a: i128, b: i128) -> (r: i64)
    requires
        a > i128::MIN,
        b > i128::MIN,
    ensures
        r == saturated(truncated_quotient(a as int, b as int)),
{
    if b == 0 {
        return 0;
    }
    let q: u128 = absolute(a) / absolute(b);
    proof {
        let m = magnitude(a as int);
        let d = magnitude(b as int);
        assert(m / d <= m) by (nonlinear_arith)
            requires
                m >= 0,
                d >= 1,
        ;
    }
    if (a < 0) == (b < 0) {
        saturate(q as i128)
    } else {
        saturate(-(q as i128))
    }
}

/// Computes the integer square root by bisection.
fn integer_root(x: u128) -> (r: u64)
    requires
        x < 0x1_0000_0000_0000_0000,
    ensures
        is_floor_root(x as int, r as int),
{
    let mut low: u128 = 0;
    let mut high: u128 = 0x1_0000_0000;
    assert(0x1_0000_0000int * 0x1_0000_0000int == 0x1_0000_0000_0000_0000int);
    while low + 1 < high
        invariant
            low < high <= 0x1_0000_0000,
            low * low <= x,
            x < high * high,
        decreases high - low,
    {
        let middle: u128 = low + (high - low) / 2;
        assert(middle * middle <= 0x1_0000_0000_0000_0000) by (nonlinear_arith)
            requires
                middle <= 0x1_0000_0000,
        ;
        if middle * middle <= x {
            low = middle;
        } else {
            high = middle;
        }
    }
    assert(high == low + 1);
    low as u64
}

impl Scalar for Fixed {
    open spec fn spec_zero() -> Self {
        Fixed { raw: 0 }
    }

    open spec fn spec_one() -> Self {
        Fixed { raw: FIXED_UNIT }
    }

    open spec fn spec_count(n: u32) -> Self {
        Fixed { raw: (n * FIXED_UNIT) as i64 }
    }

    open spec fn spec_integer(n: i64) -> Self {
        Fixed { raw: saturated(n * FIXED_UNIT) as i64 }
    }

    open spec fn spec_from_bits(bits: u32) -> Self {
        Fixed { raw: bits as i64 }
    }

    open spec fn spec_plus(self, other: Self) -> Self {
        Fixed { raw: saturated(self.raw + other.raw) as i64 }
    }

    open spec fn spec_minus(self, other: Self) -> Self {
        Fixed { raw: saturated(self.raw - other.raw) as i64 }
    }

    open spec fn spec_times(self, other: Self) -> Self {
        Fixed {
            raw: saturated(
                truncated_quotient(self.raw * other.raw, FIXED_UNIT as int),
            ) as i64,
        }
    }

    open spec fn spec_over(self, other: Self) -> Self {
        Fixed {
            raw: saturated(
                truncated_quotient(self.raw * FIXED_UNIT, other.raw as int),
            ) as i64,
        }
    }

    open spec fn spec_negated(self) -> Self {
        Fixed { raw: saturated(-self.raw) as i64 }
    }

    open spec fn spec_root(self) -> Self {
        if self.raw <= 0 {
            Fixed { raw: 0 }
        } else {
            Fixed { raw: (floor_root(self.raw as int) * 1000) as i64 }
        }
    }

    open spec fn spec_log(self) -> Self {
        if self.raw < FIXED_UNIT {
            Fixed { raw: 0 }
        } else {
            Fixed { raw: (halvings(self.raw as int / FIXED_UNIT as int) * 693_147) as i64 }
        }
    }

    open spec fn spec_above(self, other: Self) -> bool {
        self.raw > other.raw
    }

    open spec fn spec_same(self, other: Self) -> bool {
        self.raw == other.raw
    }

    open spec fn spec_total_key(self) -> i64 {
        self.raw
    }

    open spec fn spec_floor_count(self) -> u32 {
        if self.raw <= 0 {
            0
        } else if self.raw as int / FIXED_UNIT as int > u32::MAX {
            u32::MAX
        } else {
            (self.raw as int / FIXED_UNIT as int) as u32
        }
    }

    open spec fn spec_rounded(self) -> i32 {
        let half = if self.raw < 0 {
            self.raw - 500_000
        } else {
            self.raw + 500_000
        };
        let q = truncated_quotient(half, FIXED_UNIT as int);
        if q > i32::MAX {
            i32::MAX
        } else if q < i32::MIN {
            i32::MIN
        } else {
            q as i32
        }
    }

    open spec fn spec_truncated(self) -> i64 {
        truncated_quotient(self.raw as int, FIXED_UNIT as int) as i64
    }

    fn zero() -> (r: Self) {
        Fixed { raw: 0 }
    }

    fn one() -> (r: Self) {
        Fixed { raw: FIXED_UNIT }
    }

    fn count(n: u32) -> (r: Self) {
        Fixed { raw: n as i64 * FIXED_UNIT }
    }

    fn integer(n: i64) -> (r: Self) {
        Fixed { raw: saturate(n as i128 * FIXED_UNIT as i128) }
    }

    fn from_bits(bits: u32) -> (r: Self) {
        Fixed { raw: bits as i64 }
    }

    fn plus(self, other: Self) -> (r: Self) {
        Fixed { raw: saturate(self.raw as i128 + other.raw as i128) }
    }

    fn minus(self, other: Self) -> (r: Self) {
        Fixed { raw: saturate(self.raw as i128 - other.raw as i128) }
    }

    fn times(self, other: Self) -> (r: Self) {
        let a: i128 = self.raw as i128;
        let b: i128 = other.raw as i128;
        proof {
            lemma_product_fits(a as int, b as int);
        }
        Fixed { raw: divide(a * b, FIXED_UNIT as i128) }
    }

    fn over(self, other: Self) -> (r: Self) {
        let a: i128 = self.raw as i128;
        proof {
            lemma_product_fits(a as int, FIXED_UNIT as int);
        }
        Fixed { raw: divide(a * FIXED_UNIT as i128, other.raw as i128) }
    }

    fn negated(self) -> (r: Self) {
        Fixed { raw: saturate(-(self.raw as i128)) }
    }

    fn root(self) -> (r: Self) {
        if self.raw <= 0 {
            return Fixed { raw: 0 };
        }
        let r: u64 = integer_root(self.raw as u128);
        proof {
            lemma_floor_root_unique(self.raw as int, r as int, floor_root(self.raw as int));
            assert(r < 0x1_0000_0000) by (nonlinear_arith)
                requires
                    r * r <= 0x7fff_ffff_ffff_ffff,
            ;
        }
        Fixed { raw: r as i64 * 1000 }
    }

    fn log(self) -> (r: Self) {
        if self.raw < FIXED_UNIT {
            return Fixed { raw: 0 };
        }
        let mut rest: u64 = self.raw as u64 / FIXED_UNIT as u64;
        let ghost whole: int = rest as int;
        let mut steps: i64 = 0;
        proof {
            lemma_halvings_bound(rest as int);
            let raw = self.raw as int;
            assert(FIXED_UNIT == 1_000_000);
            assert(raw / 1_000_000 <= 9_223_372_036_854) by (nonlinear_arith)
                requires
                    0 <= raw <= 9_223_372_036_854_775_807,
            ;
        }
        while rest >= 2
            invariant
                steps >= 0,
                steps + halvings(rest as int) == halvings(whole),
                halvings(whole) <= whole <= 9_223_372_036_854,
            decreases rest,
        {
            rest = rest / 2;
            steps = steps + 1;
        }
        Fixed { raw: steps * 693_147 }
    }

    fn above(self, other: Self) -> (r: bool) {
        self.raw > other.raw
    }

    fn same(self, other: Self) -> (r: bool) {
        self.raw == other.raw
    }

    fn total_key(self) -> (r: i64) {
        self.raw
    }

    fn floor_count(self) -> (r: u32) {
        if self.raw <= 0 {
            return 0;
        }
        let whole: u64 = self.raw as u64 / FIXED_UNIT as u64;
        if whole > u32::MAX as u64 {
            u32::MAX
        } else {
            whole as u32
        }
    }

    fn truncated(self) -> (r: i64) {
        proof {
            lemma_quotient_fits(self.raw as int);
        }
        divide(self.raw as i128, FIXED_UNIT as i128)
    }

    fn rounded(self) -> (r: i32) {
        let half: i128 = if self.raw < 0 {
            self.raw as i128 - 500_000
        } else {
            self.raw as i128 + 500_000
        };
        let q: i64 = divide(half, FIXED_UNIT as i128);
        proof {
            let m = magnitude(half as int);
            assert(m / 1_000_000 <= m);
        }
        if q > i32::MAX as i64 {
            i32::MAX
        } else if q < i32::MIN as i64 {
            i32::MIN
        } else {
            q as i32
        }
    }
}

proof fn lemma_quotient_fits(a: int)
    requires
        i64::MIN <= a <= i64::MAX,
    ensures
        i64::MIN <= truncated_quotient(a, FIXED_UNIT as int) <= i64::MAX,
{
    let m = magnitude(a);
    assert(m / 1_000_000 <= m);
}

proof fn lemma_product_fits(a: int, b: int)
    requires
        i64::MIN <= a <= i64::MAX,
        i64::MIN <= b <= i64::MAX,
    ensures
        i128::MIN < a * b <= i128::MAX,
{
    assert(magnitude(a) * magnitude(b) <= 0x8000_0000_0000_0000 * 0x8000_0000_0000_0000)
        by (nonlinear_arith)
        requires
            0 <= magnitude(a) <= 0x8000_0000_0000_0000,
            0 <= magnitude(b) <= 0x8000_0000_0000_0000,
    ;
    assert(-(magnitude(a) * magnitude(b)) <= a * b <= magnitude(a) * magnitude(b))
        by (nonlinear_arith)
        requires
            magnitude(a) == a || magnitude(a) == -a,
            magnitude(b) == b || magnitude(b) == -b,
            magnitude(a) >= 0,
            magnitude(b) >= 0,
    ;
}

/// A number can be halved no more often than it counts.
proof fn lemma_halvings_bound(x: int)
    requires
        x >= 0,
    ensures
        halvings(x) <= x,
    decreases x,
{
    if x >= 2 {
        lemma_halvings_bound(x / 2);
    }
}

} // verus!
