//! A deterministic fixed-point scalar.
//!
//! A [`Fixed`] value is an `i64` mantissa denominating billionths: the value
//! it stands for is `m / SCALE`. Addition and subtraction are exact inside
//! the mantissa range and saturate at its ends; multiplication and division
//! rescale and truncate toward zero, then saturate. Every operation is total
//! and its result is pinned exactly by the spec functions below.

use vstd::prelude::*;

verus! {

/// Mantissa units per whole unit: values carry nine decimal places.
pub const SCALE: i64 = 1_000_000_000;

/// Saturating clip of a mathematical integer into the `i64` range.
pub open spec fn clip(x: int) -> int {
    if x > i64::MAX {
        i64::MAX as int
    } else if x < i64::MIN {
        i64::MIN as int
    } else {
        x
    }
}

/// Magnitude of a mathematical integer.
pub open spec fn iabs(x: int) -> int {
    if x < 0 {
        -x
    } else {
        x
    }
}

/// Division truncating toward zero (the machine's signed division), for a
/// positive divisor.
pub open spec fn tdiv(n: int, d: int) -> int
    recommends
        d > 0,
{
    if n >= 0 {
        n / d
    } else {
        -((-n) / d)
    }
}

/// Mantissa of the saturating sum.
pub open spec fn spec_add(a: int, b: int) -> int {
    clip(a + b)
}

/// Mantissa of the saturating difference.
pub open spec fn spec_sub(a: int, b: int) -> int {
    clip(a - b)
}

/// Mantissa of the rescaled, truncated, saturating product.
pub open spec fn spec_mul(a: int, b: int) -> int {
    clip(tdiv(a * b, SCALE as int))
}

/// Mantissa of the rescaled, truncated, saturating quotient.
pub open spec fn spec_div(a: int, b: int) -> int
    recommends
        b != 0,
{
    if (a < 0) != (b < 0) {
        clip(-(iabs(a) * (SCALE as int) / iabs(b)))
    } else {
        clip(iabs(a) * (SCALE as int) / iabs(b))
    }
}

/// For a positive divisor the quotient's sign follows the dividend's.
pub proof fn lemma_spec_div_sign(a: int, b: int)
    requires
        b > 0,
    ensures
        spec_div(a, b) > 0 ==> a > 0,
        spec_div(a, b) < 0 ==> a < 0,
{
    assert(iabs(a) * (SCALE as int) >= 0) by (nonlinear_arith)
        requires
            iabs(a) >= 0,
    ;
    vstd::arithmetic::div_mod::lemma_div_pos_is_pos(iabs(a) * (SCALE as int), iabs(b));
}

/// A quotient of like-signed operands is non-negative.
pub proof fn lemma_spec_div_nonneg(a: int, b: int)
    requires
        b != 0,
        ((a < 0) == (b < 0)) || a == 0,
    ensures
        spec_div(a, b) >= 0,
{
    assert(iabs(a) * (SCALE as int) >= 0) by (nonlinear_arith)
        requires
            iabs(a) >= 0,
    ;
    vstd::arithmetic::div_mod::lemma_div_pos_is_pos(iabs(a) * (SCALE as int), iabs(b));
    if a == 0 {
        vstd::arithmetic::div_mod::lemma_div_of0(iabs(b));
    }
}

/// A product of non-negative factors is non-negative.
pub proof fn lemma_spec_mul_nonneg(a: int, b: int)
    requires
        a >= 0,
        b >= 0,
    ensures
        spec_mul(a, b) >= 0,
{
    assert(a * b >= 0) by (nonlinear_arith)
        requires
            a >= 0,
            b >= 0,
    ;
    vstd::arithmetic::div_mod::lemma_div_pos_is_pos(a * b, SCALE as int);
}

/// A square is non-negative.
pub proof fn lemma_spec_mul_square(a: int)
    ensures
        spec_mul(a, a) >= 0,
{
    assert(a * a >= 0) by (nonlinear_arith);
    vstd::arithmetic::div_mod::lemma_div_pos_is_pos(a * a, SCALE as int);
}

/// A fixed-point scalar: the value `m / SCALE`.
#[derive(Clone, Copy, Debug, PartialEq, Eq, Structural)]
pub struct Fixed {
    pub m: i64,
}

proof fn lemma_abs_mul(a: int, b: int)
    ensures
        iabs(a * b) == iabs(a) * iabs(b),
        ((a < 0) != (b < 0)) ==> a * b <= 0,
        ((a < 0) == (b < 0)) ==> a * b >= 0,
{
    assert(iabs(a * b) == iabs(a) * iabs(b)) by (nonlinear_arith);
    assert(((a < 0) != (b < 0)) ==> a * b <= 0) by (nonlinear_arith);
    assert(((a < 0) == (b < 0)) ==> a * b >= 0) by (nonlinear_arith);
}

/// Magnitude of a signed mantissa, widened so that `i64::MIN` is exact.
fn abs_u128(x: i64) -> (r: u128)
    ensures
        r == iabs(x as int),
{
    if x >= 0 {
        x as u128
    } else {
        (-(x as i128)) as u128
    }
}

/// Signed saturating narrowing of a magnitude and sign to a mantissa.
fn from_mag(q: u128, neg: bool) -> (r: Fixed)
    ensures
        r.m as int == if neg {
            clip(-(q as int))
        } else {
            clip(q as int)
        },
{
    if neg {
        if q >= 9223372036854775808u128 {
            Fixed { m: i64::MIN }
        } else {
            Fixed { m: -(q as i64) }
        }
    } else {
        if q > i64::MAX as u128 {
            Fixed { m: i64::MAX }
        } else {
            Fixed { m: q as i64 }
        }
    }
}

impl Fixed {
    /// The value zero.
    pub fn zero() -> (r: Fixed)
        ensures
            r.m == 0,
    {
        Fixed { m: 0 }
    }

    /// The value one.
    pub fn one() -> (r: Fixed)
        ensures
            r.m == SCALE,
    {
        Fixed { m: SCALE }
    }

    /// The value two.
    pub fn two() -> (r: Fixed)
        ensures
            r.m == 2 * SCALE,
    {
        Fixed { m: 2 * SCALE }
    }

    /// The greatest representable value, used as a positive sentinel.
    pub fn max_value() -> (r: Fixed)
        ensures
            r.m == i64::MAX,
    {
        Fixed { m: i64::MAX }
    }

    /// The least representable value, used as a negative sentinel.
    pub fn min_value() -> (r: Fixed)
        ensures
            r.m == i64::MIN,
    {
        Fixed { m: i64::MIN }
    }

    /// A whole number, scaled onto the mantissa grid.
    pub fn from_int(i: i64) -> (r: Fixed)
        requires
            i * (SCALE as int) <= i64::MAX,
            i * (SCALE as int) >= i64::MIN,
        ensures
            r.m == i * (SCALE as int),
    {
        Fixed { m: i * SCALE }
    }

    /// Saturating sum.
    pub fn add(self, other: Fixed) -> (r: Fixed)
        ensures
            r.m == spec_add(self.m as int, other.m as int),
    {
        let s: i128 = self.m as i128 + other.m as i128;
        if s > i64::MAX as i128 {
            Fixed { m: i64::MAX }
        } else if s < i64::MIN as i128 {
            Fixed { m: i64::MIN }
        } else {
            Fixed { m: s as i64 }
        }
    }

    /// Saturating difference.
    pub fn sub(self, other: Fixed) -> (r: Fixed)
        ensures
            r.m == spec_sub(self.m as int, other.m as int),
    {
        let s: i128 = self.m as i128 - other.m as i128;
        if s > i64::MAX as i128 {
            Fixed { m: i64::MAX }
        } else if s < i64::MIN as i128 {
            Fixed { m: i64::MIN }
        } else {
            Fixed { m: s as i64 }
        }
    }

    /// Saturating negation.
    pub fn neg(self) -> (r: Fixed)
        ensures
            r.m == clip(-(self.m as int)),
    {
        if self.m == i64::MIN {
            Fixed { m: i64::MAX }
        } else {
            Fixed { m: -self.m }
        }
    }

    /// Saturating magnitude.
    pub fn abs(self) -> (r: Fixed)
        ensures
            r.m == clip(iabs(self.m as int)),
    {
        if self.m >= 0 {
            self
        } else {
            self.neg()
        }
    }

    /// Rescaled, truncated, saturating product.
    pub fn mul(self, other: Fixed) -> (r: Fixed)
        ensures
            r.m == spec_mul(self.m as int, other.m as int),
    {
        let neg: bool = (self.m < 0) != (other.m < 0);
        let aa: u128 = abs_u128(self.m);
        let bb: u128 = abs_u128(other.m);
        proof {
            lemma_abs_mul(self.m as int, other.m as int);
            assert(aa * bb <= u128::MAX) by (nonlinear_arith)
                requires
                    aa <= 9223372036854775808u128,
                    bb <= 9223372036854775808u128,
            ;
        }
        let q: u128 = (aa * bb) / (SCALE as u128);
        from_mag(q, neg)
    }

    /// Rescaled, truncated, saturating quotient.
    pub fn div(self, other: Fixed) -> (r: Fixed)
        requires
            other.m != 0,
        ensures
            r.m == spec_div(self.m as int, other.m as int),
    {
        let neg: bool = (self.m < 0) != (other.m < 0);
        let aa: u128 = abs_u128(self.m);
        let bb: u128 = abs_u128(other.m);
        proof {
            assert(aa * (SCALE as u128) <= u128::MAX) by (nonlinear_arith)
                requires
                    aa <= 9223372036854775808u128,
            ;
        }
        let q: u128 = (aa * (SCALE as u128)) / bb;
        from_mag(q, neg)
    }

    /// Square root of a non-negative value, truncated onto the mantissa grid.
    pub fn sqrt(self) -> (r: Fixed)
        requires
            self.m >= 0,
        ensures
            r.m >= 0,
            r.m * r.m <= (self.m as int) * (SCALE as int),
            (self.m as int) * (SCALE as int) < (r.m + 1) * (r.m + 1),
    {
        let v: u128 = (self.m as u128) * (SCALE as u128);
        let s: u128 = isqrt_u128(v);
        proof {
            assert(v < 19807040628566084398385987584) by (nonlinear_arith)
                requires
                    v == (self.m as u128) * (SCALE as u128),
                    self.m as u128 <= i64::MAX as u128,
            ;
            assert(s < 140737488355328) by (nonlinear_arith)
                requires
                    s * s <= v,
                    v < 19807040628566084398385987584,
            ;
        }
        Fixed { m: s as i64 }
    }

    /// Length of the hypotenuse over two mantissas, truncated, saturating.
    pub fn hypot(self, other: Fixed) -> (r: Fixed)
        ensures
            r.m >= 0,
            r.m * r.m <= (self.m as int) * (self.m as int) + (other.m as int) * (other.m as int),
            r.m < i64::MAX ==> (self.m as int) * (self.m as int) + (other.m as int) * (other.m
                as int) < (r.m + 1) * (r.m + 1),
    {
        let aa: u128 = abs_u128(self.m);
        let bb: u128 = abs_u128(other.m);
        proof {
            lemma_abs_mul(self.m as int, self.m as int);
            lemma_abs_mul(other.m as int, other.m as int);
            assert(aa * aa + bb * bb <= u128::MAX) by (nonlinear_arith)
                requires
                    aa <= 9223372036854775808u128,
                    bb <= 9223372036854775808u128,
            ;
        }
        let v: u128 = aa * aa + bb * bb;
        let s: u128 = isqrt_u128(v);
        if s > i64::MAX as u128 {
            proof {
                assert((i64::MAX as u128) * (i64::MAX as u128) < s * s) by (nonlinear_arith)
                    requires
                        s > i64::MAX as u128,
                ;
            }
            Fixed { m: i64::MAX }
        } else {
            Fixed { m: s as i64 }
        }
    }
}

/// Truncated square root over the full unsigned 128-bit range.
fn isqrt_u128(v: u128) -> (r: u128)
    ensures
        r * r <= v,
        v < (r + 1) * (r + 1),
{
    let mut lo: u128 = 0;
    let mut hi: u128 = 18446744073709551615u128;
    proof {
        assert((hi + 1) * (hi + 1) > u128::MAX) by (nonlinear_arith)
            requires
                hi == 18446744073709551615u128,
        ;
    }
    while lo < hi
        invariant
            lo <= hi,
            hi <= 18446744073709551615u128,
            lo * lo <= v,
            v < (hi + 1) * (hi + 1),
        decreases hi - lo,
    {
        let mid: u128 = lo + (hi - lo + 1) / 2;
        proof {
            assert(mid * mid <= u128::MAX) by (nonlinear_arith)
                requires
                    mid <= 18446744073709551615u128,
            ;
        }
        if mid * mid <= v {
            lo = mid;
        } else {
            hi = mid - 1;
        }
    }
    lo
}

} // verus!
