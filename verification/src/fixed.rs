//! Signed fixed-point scalars with 32 fractional bits.
//!
//! Every quantity the tracer computes with (coordinates, distances, colour
//! channels) is a `Fixed`: a 64-bit integer `raw` that stands for the
//! rational number `raw / 2^32`.  All operations are total.  Sums and
//! differences are exact unless they leave the representable range, in which
//! case they saturate; products, quotients and square roots round toward
//! zero and saturate likewise.  Division by zero saturates by the sign of the
//! numerator.

use vstd::arithmetic::div_mod::{
    lemma_div_is_ordered, lemma_fundamental_div_mod, lemma_mod_bound,
};
use vstd::prelude::*;

verus! {

/// The raw value of one: `2^32`.
pub const ONE_RAW: i64 = 0x1_0000_0000;

/// The raw value of one, as an unsigned 128-bit integer.
pub const SCALE_WIDE: u128 = 0x1_0000_0000;

/// Clamps a mathematical integer into the range of raw values.
pub open spec fn clamp(x: int) -> int {
    if x < i64::MIN as int {
        i64::MIN as int
    } else if x > i64::MAX as int {
        i64::MAX as int
    } else {
        x
    }
}

/// Absolute value of a mathematical integer.
pub open spec fn magnitude(x: int) -> int {
    if x < 0 {
        -x
    } else {
        x
    }
}

/// Quotient of `n` by `d` rounded toward zero (zero when `d` is zero).
pub open spec fn quot(n: int, d: int) -> int {
    if d == 0 {
        0
    } else if (n >= 0) == (d > 0) {
        magnitude(n) / magnitude(d)
    } else {
        -(magnitude(n) / magnitude(d))
    }
}

/// `r` is the integer square root of `n`, rounded down.
pub open spec fn is_floor_sqrt(n: int, r: int) -> bool {
    0 <= r && r * r <= n && n < (r + 1) * (r + 1)
}

/// The integer square root of `n`, rounded down (for `n >= 0`).
pub open spec fn floor_sqrt(n: int) -> int {
    choose|r: int| is_floor_sqrt(n, r)
}

/// At most one integer is the floor square root of `n`.
pub proof fn lemma_floor_sqrt_unique(n: int, r1: int, r2: int)
    requires
        is_floor_sqrt(n, r1),
        is_floor_sqrt(n, r2),
    ensures
        r1 == r2,
{
    if r1 < r2 {
        assert((r1 + 1) * (r1 + 1) <= r2 * r2) by (nonlinear_arith)
            requires
                0 <= r1,
                r1 + 1 <= r2,
        ;
    } else if r2 < r1 {
        assert((r2 + 1) * (r2 + 1) <= r1 * r1) by (nonlinear_arith)
            requires
                0 <= r2,
                r2 + 1 <= r1,
        ;
    }
}

/// The magnitude of a product is the product of the magnitudes, and a
/// product is negative exactly when the factors have opposite strict signs.
pub proof fn lemma_product_sign(a: int, b: int)
    ensures
        magnitude(a) * magnitude(b) == magnitude(a * b),
        (a * b < 0) <==> ((a < 0 && b > 0) || (a > 0 && b < 0)),
        (a * b == 0) <==> (a == 0 || b == 0),
{
    assert(magnitude(a) * magnitude(b) == magnitude(a * b) && ((a * b < 0) <==> ((a < 0 && b > 0)
        || (a > 0 && b < 0))) && ((a * b == 0) <==> (a == 0 || b == 0))) by (nonlinear_arith)
        requires
            magnitude(a) == if a < 0 {
                -a
            } else {
                a
            },
            magnitude(b) == if b < 0 {
                -b
            } else {
                b
            },
            magnitude(a * b) == if a * b < 0 {
                -(a * b)
            } else {
                a * b
            },
    ;
}

/// A product of two magnitudes that each fit in 63 bits fits in 126 bits.
pub proof fn lemma_product_bound(a: int, b: int, ka: int, kb: int)
    requires
        0 <= a <= ka,
        0 <= b <= kb,
    ensures
        0 <= a * b <= ka * kb,
{
    assert(0 <= a * b <= ka * kb) by (nonlinear_arith)
        requires
            0 <= a <= ka,
            0 <= b <= kb,
    ;
}

/// Dividing a multiple of a positive `d` by `d` gives back the factor.
pub proof fn lemma_quot_multiple(m: int, d: int)
    requires
        d > 0,
    ensures
        quot(m * d, d) == m,
{
    lemma_product_sign(m, d);
    assert((magnitude(m) * d) / d == magnitude(m)) by (nonlinear_arith)
        requires
            d > 0,
            magnitude(m) >= 0,
    ;
}

/// Rounding toward zero: the quotient has the sign of the numerator, and its
/// magnitude times the divisor misses the magnitude of the numerator by
/// less than the divisor.
pub proof fn lemma_quot_bounds(n: int, d: int)
    requires
        d > 0,
    ensures
        magnitude(quot(n, d)) * d <= magnitude(n),
        magnitude(n) < magnitude(quot(n, d)) * d + d,
        n >= 0 ==> quot(n, d) >= 0,
        n <= 0 ==> quot(n, d) <= 0,
{
    let m = magnitude(n);
    lemma_fundamental_div_mod(m, d);
    lemma_mod_bound(m, d);
    assert(m / d >= 0 && (m / d) * d == d * (m / d)) by (nonlinear_arith)
        requires
            m >= 0,
            d > 0,
            m == d * (m / d) + (m % d),
            0 <= m % d < d,
    ;
}

/// Rounding toward zero keeps the order of the numerators.
pub proof fn lemma_quot_monotone(n1: int, n2: int, d: int)
    requires
        n1 <= n2,
        d > 0,
    ensures
        quot(n1, d) <= quot(n2, d),
{
    lemma_quot_bounds(n1, d);
    lemma_quot_bounds(n2, d);
    if n1 >= 0 {
        lemma_div_is_ordered(n1, n2, d);
    } else if n2 < 0 {
        lemma_div_is_ordered(-n2, -n1, d);
    }
}

/// Division keeps the order of the numerators when the divisor is not
/// negative.
pub proof fn lemma_div_monotone(x: Fixed, y: Fixed, d: Fixed)
    requires
        x.raw <= y.raw,
        d.raw >= 0,
    ensures
        x.div(d).raw <= y.div(d).raw,
{
    if d.raw > 0 {
        lemma_quot_monotone(x.raw * ONE_RAW, y.raw * ONE_RAW, d.raw as int);
    }
}

/// A square is not negative, and neither is a square root.
pub proof fn lemma_square_and_root_signs(x: Fixed)
    ensures
        x.mul(x).raw >= 0,
        x.sqrt().raw >= 0,
{
    lemma_product_sign(x.raw as int, x.raw as int);
    lemma_quot_bounds(x.raw * x.raw, ONE_RAW as int);
    if x.raw > 0 {
        let n = x.raw * ONE_RAW;
        lemma_floor_sqrt_exists(n);
        let r = floor_sqrt(n);
        assert(r < 0x1_0000_0000_0000) by (nonlinear_arith)
            requires
                0 <= r,
                r * r <= n,
                n < 0x8000_0000_0000_0000_0000_0000,
        ;
    }
}

/// Every natural number has an integer square root.
pub proof fn lemma_floor_sqrt_exists(n: int)
    requires
        n >= 0,
    ensures
        is_floor_sqrt(n, floor_sqrt(n)),
    decreases n,
{
    if n == 0 {
        assert(is_floor_sqrt(0, 0));
    } else {
        lemma_floor_sqrt_exists(n - 1);
        let r = floor_sqrt(n - 1);
        if (r + 1) * (r + 1) <= n {
            assert(n < (r + 2) * (r + 2)) by (nonlinear_arith)
                requires
                    n - 1 < (r + 1) * (r + 1),
                    r >= 0,
            ;
            assert(is_floor_sqrt(n, r + 1));
        } else {
            assert(is_floor_sqrt(n, r));
        }
    }
}

/// A fixed-point number: `raw / 2^32`.
#[derive(Clone, Copy, PartialEq, Eq, Debug, Structural)]
pub struct Fixed {
    pub raw: i64,
}

fn magnitude_of(x: i64) -> (m: u128)
    ensures
        m == magnitude(x as int),
        m <= 0x8000_0000_0000_0000,
{
    if x < 0 {
        (-(x as i128)) as u128
    } else {
        x as u128
    }
}

fn saturate(negative: bool, m: u128) -> (r: i64)
    ensures
        r == clamp(
            if negative {
                -(m as int)
            } else {
                m as int
            },
        ),
{
    if negative {
        if m >= 0x8000_0000_0000_0000 {
            i64::MIN
        } else {
            -(m as i64)
        }
    } else {
        if m > 0x7fff_ffff_ffff_ffff {
            i64::MAX
        } else {
            m as i64
        }
    }
}

fn saturate_wide(x: i128) -> (r: i64)
    ensures
        r == clamp(x as int),
{
    if x < -0x8000_0000_0000_0000 {
        i64::MIN
    } else if x > 0x7fff_ffff_ffff_ffff {
        i64::MAX
    } else {
        x as i64
    }
}

/// Integer square root of `n`, rounded down.
fn floor_sqrt_of(n: u128) -> (r: u128)
    ensures
        is_floor_sqrt(n as int, r as int),
        r == floor_sqrt(n as int),
        r < 0x1_0000_0000_0000_0000,
{
    let mut lo: u128 = 0;
    let mut hi: u128 = 0x1_0000_0000_0000_0000;
    assert(0x1_0000_0000_0000_0000int * 0x1_0000_0000_0000_0000int
        == 0x1_0000_0000_0000_0000_0000_0000_0000_0000int) by (nonlinear_arith);
    while hi - lo > 1
        invariant
            lo < hi <= 0x1_0000_0000_0000_0000,
            lo * lo <= n,
            n < hi * hi,
        decreases hi - lo,
    {
        let mid: u128 = lo + (hi - lo) / 2;
        proof {
            lemma_product_bound(
                mid as int,
                mid as int,
                0xffff_ffff_ffff_ffff,
                0xffff_ffff_ffff_ffff,
            );
            assert(0xffff_ffff_ffff_ffffint * 0xffff_ffff_ffff_ffffint
                == 0xffff_ffff_ffff_fffe_0000_0000_0000_0001int) by (nonlinear_arith);
        }
        if mid * mid <= n {
            lo = mid;
        } else {
            hi = mid;
        }
    }
    proof {
        assert(hi == lo + 1);
        assert(is_floor_sqrt(n as int, lo as int));
        lemma_floor_sqrt_unique(n as int, lo as int, floor_sqrt(n as int));
    }
    lo
}

fn square_of(x: i64) -> (r: u128)
    ensures
        r == x * x,
        r <= 0x4000_0000_0000_0000_0000_0000_0000_0000,
{
    let m = magnitude_of(x);
    proof {
        lemma_product_sign(x as int, x as int);
        lemma_product_bound(m as int, m as int, 0x8000_0000_0000_0000, 0x8000_0000_0000_0000);
        assert(0x8000_0000_0000_0000int * 0x8000_0000_0000_0000int
            == 0x4000_0000_0000_0000_0000_0000_0000_0000int) by (nonlinear_arith);
        assert(x * x >= 0) by (nonlinear_arith);
    }
    m * m
}

impl Fixed {
    /// The number zero.
    pub open spec fn spec_zero() -> Fixed {
        Fixed { raw: 0 }
    }

    /// The number one.
    pub open spec fn spec_one() -> Fixed {
        Fixed { raw: ONE_RAW }
    }

    /// The largest representable number.
    pub open spec fn spec_max() -> Fixed {
        Fixed { raw: i64::MAX }
    }

    /// The smallest representable number.
    pub open spec fn spec_min() -> Fixed {
        Fixed { raw: i64::MIN }
    }

    /// The whole number `n`.
    pub open spec fn spec_from_int(n: i32) -> Fixed {
        Fixed { raw: (n as int * ONE_RAW as int) as i64 }
    }

    /// The whole number `n`, saturated.
    pub open spec fn spec_from_count(n: u32) -> Fixed {
        Fixed { raw: clamp(n as int * ONE_RAW as int) as i64 }
    }

    /// The number `bits / 2^32`, which lies in `[0, 1)`.
    pub open spec fn spec_from_fraction(bits: u32) -> Fixed {
        Fixed { raw: bits as i64 }
    }

    /// Saturating sum.
    pub open spec fn spec_add(self, rhs: Fixed) -> Fixed {
        Fixed { raw: clamp(self.raw + rhs.raw) as i64 }
    }

    /// Saturating difference.
    pub open spec fn spec_sub(self, rhs: Fixed) -> Fixed {
        Fixed { raw: clamp(self.raw - rhs.raw) as i64 }
    }

    /// Saturating negation.
    pub open spec fn spec_neg(self) -> Fixed {
        Fixed { raw: clamp(-self.raw) as i64 }
    }

    /// Saturating absolute value.
    pub open spec fn spec_abs(self) -> Fixed {
        Fixed { raw: clamp(magnitude(self.raw as int)) as i64 }
    }

    /// Product, rounded toward zero, saturating.
    pub open spec fn spec_mul(self, rhs: Fixed) -> Fixed {
        Fixed { raw: clamp(quot(self.raw * rhs.raw, ONE_RAW as int)) as i64 }
    }

    /// Quotient, rounded toward zero, saturating; a zero divisor gives the
    /// extreme of the numerator's sign, and zero for a zero numerator.
    pub open spec fn spec_div(self, rhs: Fixed) -> Fixed {
        if rhs.raw == 0 {
            if self.raw > 0 {
                Fixed::spec_max()
            } else if self.raw < 0 {
                Fixed::spec_min()
            } else {
                Fixed::spec_zero()
            }
        } else {
            Fixed { raw: clamp(quot(self.raw * ONE_RAW, rhs.raw as int)) as i64 }
        }
    }

    /// Square root, rounded down; zero for arguments that are not positive.
    pub open spec fn spec_sqrt(self) -> Fixed {
        if self.raw <= 0 {
            Fixed::spec_zero()
        } else {
            Fixed { raw: floor_sqrt(self.raw * ONE_RAW) as i64 }
        }
    }

    /// The Euclidean norm of the vector `(x, y, z)`, rounded down and
    /// saturating: in raw units, the integer square root of
    /// `x^2 + y^2 + z^2`.
    pub open spec fn spec_norm(x: Fixed, y: Fixed, z: Fixed) -> Fixed {
        Fixed { raw: clamp(floor_sqrt(x.raw * x.raw + y.raw * y.raw + z.raw * z.raw)) as i64 }
    }

    /// Fifth power, by repeated rounding multiplication.
    pub open spec fn spec_powi5(self) -> Fixed {
        let square = self.spec_mul(self);
        square.spec_mul(square).spec_mul(self)
    }

    /// `num / den` as a fixed-point number.
    pub open spec fn spec_from_ratio(num: i32, den: i32) -> Fixed {
        Fixed::spec_from_int(num).spec_div(Fixed::spec_from_int(den))
    }

    /// Strictly less than.
    pub open spec fn spec_lt(self, rhs: Fixed) -> bool {
        self.raw < rhs.raw
    }

    /// Less than or equal.
    pub open spec fn spec_le(self, rhs: Fixed) -> bool {
        self.raw <= rhs.raw
    }

    /// Strictly greater than.
    pub open spec fn spec_gt(self, rhs: Fixed) -> bool {
        self.raw > rhs.raw
    }

    /// The number lies in the closed unit interval.
    pub open spec fn in_unit_interval(self) -> bool {
        0 <= self.raw <= ONE_RAW
    }

    /// Computes `spec_zero`.
    #[verifier::when_used_as_spec(spec_zero)]
    pub fn zero() -> (r: Fixed)
        ensures
            r == Fixed::spec_zero(),
    {
        Fixed { raw: 0 }
    }

    /// Computes `spec_one`.
    #[verifier::when_used_as_spec(spec_one)]
    pub fn one() -> (r: Fixed)
        ensures
            r == Fixed::spec_one(),
    {
        Fixed { raw: ONE_RAW }
    }

    /// Computes `spec_max`.
    #[verifier::when_used_as_spec(spec_max)]
    pub fn max() -> (r: Fixed)
        ensures
            r == Fixed::spec_max(),
    {
        Fixed { raw: i64::MAX }
    }

    /// Computes `spec_min`.
    #[verifier::when_used_as_spec(spec_min)]
    pub fn min() -> (r: Fixed)
        ensures
            r == Fixed::spec_min(),
    {
        Fixed { raw: i64::MIN }
    }

    /// Wraps a raw value.
    pub fn from_raw(raw: i64) -> (r: Fixed)
        ensures
            r.raw == raw,
    {
        Fixed { raw }
    }

    /// Computes `spec_from_int`.
    #[verifier::when_used_as_spec(spec_from_int)]
    pub fn from_int(n: i32) -> (r: Fixed)
        ensures
            r == Fixed::spec_from_int(n),
            r.raw == n * ONE_RAW,
    {
        Fixed { raw: (n as i64) * ONE_RAW }
    }

    /// Computes `spec_from_count`.
    #[verifier::when_used_as_spec(spec_from_count)]
    pub fn from_count(n: u32) -> (r: Fixed)
        ensures
            r == Fixed::spec_from_count(n),
    {
        Fixed { raw: saturate_wide((n as i128) * (ONE_RAW as i128)) }
    }

    /// Computes `spec_from_fraction`.
    #[verifier::when_used_as_spec(spec_from_fraction)]
    pub fn from_fraction(bits: u32) -> (r: Fixed)
        ensures
            r == Fixed::spec_from_fraction(bits),
            0 <= r.raw < ONE_RAW,
    {
        Fixed { raw: bits as i64 }
    }

    /// Computes `spec_add`.
    #[verifier::when_used_as_spec(spec_add)]
    pub fn add(self, rhs: Fixed) -> (r: Fixed)
        ensures
            r == self.spec_add(rhs),
    {
        Fixed { raw: saturate_wide(self.raw as i128 + rhs.raw as i128) }
    }

    /// Computes `spec_sub`.
    #[verifier::when_used_as_spec(spec_sub)]
    pub fn sub(self, rhs: Fixed) -> (r: Fixed)
        ensures
            r == self.spec_sub(rhs),
    {
        Fixed { raw: saturate_wide(self.raw as i128 - rhs.raw as i128) }
    }

    /// Computes `spec_neg`.
    #[verifier::when_used_as_spec(spec_neg)]
    pub fn neg(self) -> (r: Fixed)
        ensures
            r == self.spec_neg(),
    {
        Fixed { raw: saturate_wide(-(self.raw as i128)) }
    }

    /// Computes `spec_abs`.
    #[verifier::when_used_as_spec(spec_abs)]
    pub fn abs(self) -> (r: Fixed)
        ensures
            r == self.spec_abs(),
    {
        Fixed { raw: saturate(false, magnitude_of(self.raw)) }
    }

    /// Computes `spec_mul`.
    #[verifier::when_used_as_spec(spec_mul)]
    pub fn mul(self, rhs: Fixed) -> (r: Fixed)
        ensures
            r == self.spec_mul(rhs),
    {
        let ma = magnitude_of(self.raw);
        let mb = magnitude_of(rhs.raw);
        proof {
            lemma_product_sign(self.raw as int, rhs.raw as int);
            lemma_product_bound(
                ma as int,
                mb as int,
                0x8000_0000_0000_0000,
                0x8000_0000_0000_0000,
            );
            assert(0x8000_0000_0000_0000int * 0x8000_0000_0000_0000int
                == 0x4000_0000_0000_0000_0000_0000_0000_0000int) by (nonlinear_arith);
        }
        let product: u128 = ma * mb;
        let quotient: u128 = product / SCALE_WIDE;
        let negative = (self.raw < 0) != (rhs.raw < 0);
        Fixed { raw: saturate(negative, quotient) }
    }

    /// Computes `spec_div`.
    #[verifier::when_used_as_spec(spec_div)]
    pub fn div(self, rhs: Fixed) -> (r: Fixed)
        ensures
            r == self.spec_div(rhs),
    {
        if rhs.raw == 0 {
            if self.raw > 0 {
                Fixed::max()
            } else if self.raw < 0 {
                Fixed::min()
            } else {
                Fixed::zero()
            }
        } else {
            let ma = magnitude_of(self.raw);
            let mb = magnitude_of(rhs.raw);
            proof {
                lemma_product_sign(self.raw as int, ONE_RAW as int);
            }
            let scaled: u128 = ma * SCALE_WIDE;
            let quotient: u128 = scaled / mb;
            let negative = (self.raw < 0) != (rhs.raw < 0);
            Fixed { raw: saturate(negative, quotient) }
        }
    }

    /// Computes `spec_sqrt`.
    #[verifier::when_used_as_spec(spec_sqrt)]
    pub fn sqrt(self) -> (r: Fixed)
        ensures
            r == self.spec_sqrt(),
            self.raw > 0 ==> is_floor_sqrt(self.raw * ONE_RAW, r.raw as int),
    {
        if self.raw <= 0 {
            Fixed::zero()
        } else {
            let wide: u128 = (self.raw as u128) * SCALE_WIDE;
            let root = floor_sqrt_of(wide);
            assert(root < 0x1_0000_0000_0000) by (nonlinear_arith)
                requires
                    root * root <= wide,
                    wide < 0x8000_0000_0000_0000_0000_0000,
            ;
            Fixed { raw: root as i64 }
        }
    }

    /// Computes `spec_norm`.
    #[verifier::when_used_as_spec(spec_norm)]
    pub fn norm(x: Fixed, y: Fixed, z: Fixed) -> (r: Fixed)
        ensures
            r == Fixed::spec_norm(x, y, z),
            r.raw >= 0,
            r.raw < i64::MAX ==> is_floor_sqrt(
                x.raw * x.raw + y.raw * y.raw + z.raw * z.raw,
                r.raw as int,
            ),
    {
        let sum: u128 = square_of(x.raw) + square_of(y.raw) + square_of(z.raw);
        let root = floor_sqrt_of(sum);
        Fixed { raw: saturate(false, root) }
    }

    /// Computes `spec_powi5`.
    #[verifier::when_used_as_spec(spec_powi5)]
    pub fn powi5(self) -> (r: Fixed)
        ensures
            r == self.spec_powi5(),
    {
        let square = self.mul(self);
        square.mul(square).mul(self)
    }

    /// Computes `spec_from_ratio`.
    #[verifier::when_used_as_spec(spec_from_ratio)]
    pub fn from_ratio(num: i32, den: i32) -> (r: Fixed)
        ensures
            r == Fixed::spec_from_ratio(num, den),
    {
        Fixed::from_int(num).div(Fixed::from_int(den))
    }

    /// Computes `spec_lt`.
    #[verifier::when_used_as_spec(spec_lt)]
    pub fn lt(self, rhs: Fixed) -> (r: bool)
        ensures
            r == self.spec_lt(rhs),
    {
        self.raw < rhs.raw
    }

    /// Computes `spec_le`.
    #[verifier::when_used_as_spec(spec_le)]
    pub fn le(self, rhs: Fixed) -> (r: bool)
        ensures
            r == self.spec_le(rhs),
    {
        self.raw <= rhs.raw
    }

    /// Computes `spec_gt`.
    #[verifier::when_used_as_spec(spec_gt)]
    pub fn gt(self, rhs: Fixed) -> (r: bool)
        ensures
            r == self.spec_gt(rhs),
    {
        self.raw > rhs.raw
    }
}

/// Multiplying by a whole number is exact up to saturation.
pub proof fn lemma_mul_whole(x: Fixed, k: i32)
    ensures
        x.mul(Fixed::from_int(k)).raw == clamp(x.raw * k),
        Fixed::from_int(k).mul(x).raw == clamp(x.raw * k),
{
    let w = Fixed::from_int(k);
    assert(x.raw * w.raw == (x.raw * k) * ONE_RAW && w.raw * x.raw == (x.raw * k) * ONE_RAW)
        by (nonlinear_arith)
        requires
            w.raw == k * ONE_RAW,
    ;
    lemma_quot_multiple(x.raw * k, ONE_RAW as int);
}

/// One is the unit of multiplication and zero annihilates.
pub proof fn lemma_mul_unit(x: Fixed)
    ensures
        x.mul(Fixed::one()) == x,
        Fixed::one().mul(x) == x,
        x.mul(Fixed::zero()) == Fixed::zero(),
        Fixed::zero().mul(x) == Fixed::zero(),
{
    lemma_mul_whole(x, 1);
    lemma_mul_whole(x, 0);
    assert(x.raw * 1 == x.raw && x.raw * 0 == 0) by (nonlinear_arith);
}

/// Dividing by one changes nothing.
pub proof fn lemma_div_one(x: Fixed)
    ensures
        x.div(Fixed::one()) == x,
{
    lemma_quot_multiple(x.raw as int, ONE_RAW as int);
}

/// The norm of a vector along an axis is the magnitude of its one
/// component.
pub proof fn lemma_norm_along_axis(x: Fixed)
    ensures
        Fixed::norm(x, Fixed::zero(), Fixed::zero()) == x.abs(),
        Fixed::norm(Fixed::zero(), x, Fixed::zero()) == x.abs(),
        Fixed::norm(Fixed::zero(), Fixed::zero(), x) == x.abs(),
{
    let m = magnitude(x.raw as int);
    let n = x.raw * x.raw;
    assert(m * m == n && n < (m + 1) * (m + 1)) by (nonlinear_arith)
        requires
            m == magnitude(x.raw as int),
            n == x.raw * x.raw,
    ;
    assert(is_floor_sqrt(n, m));
    lemma_floor_sqrt_unique(n, m, floor_sqrt(n));
    assert(0int * 0int == 0) by (nonlinear_arith);
}

/// The square root of a whole square is the whole root.
pub proof fn lemma_sqrt_whole_square(k: i32)
    requires
        0 <= k < 32768,
    ensures
        Fixed::from_int((k * k) as i32).sqrt() == Fixed::from_int(k),
{
    if k > 0 {
        let n = Fixed::from_int((k * k) as i32);
        assert(0 < k * k < 0x4000_0000) by (nonlinear_arith)
            requires
                0 < k < 32768,
        ;
        let r = k * ONE_RAW;
        assert(r * r == n.raw * ONE_RAW && n.raw * ONE_RAW < (r + 1) * (r + 1)) by (nonlinear_arith)
            requires
                r == k * ONE_RAW,
                n.raw == (k * k) * ONE_RAW,
                k > 0,
        ;
        assert(is_floor_sqrt(n.raw * ONE_RAW, r));
        lemma_floor_sqrt_unique(n.raw * ONE_RAW, r, floor_sqrt(n.raw * ONE_RAW));
    }
}

/// Products, square roots and means of numbers in the unit interval stay
/// in the unit interval.
pub proof fn lemma_unit_interval_is_closed(a: Fixed, b: Fixed)
    requires
        a.in_unit_interval(),
        b.in_unit_interval(),
    ensures
        a.mul(b).in_unit_interval(),
        a.mul(b).raw <= a.raw,
        a.mul(b).raw <= b.raw,
        a.sqrt().in_unit_interval(),
{
    let s = ONE_RAW as int;
    lemma_product_sign(a.raw as int, b.raw as int);
    lemma_quot_bounds(a.raw * b.raw, s);
    let q = quot(a.raw * b.raw, s);
    assert(q <= a.raw && q <= b.raw) by (nonlinear_arith)
        requires
            q >= 0,
            q * s <= a.raw * b.raw,
            0 <= a.raw <= s,
            0 <= b.raw <= s,
            s > 0,
    ;
    if a.raw > 0 {
        let n = a.raw * s;
        lemma_floor_sqrt_exists(n);
        let r = floor_sqrt(n);
        assert(r <= s) by (nonlinear_arith)
            requires
                0 <= r,
                r * r <= n,
                n == a.raw * s,
                0 < a.raw <= s,
                s > 0,
        ;
    }
}

/// The quotient of a sum of at most `n` numbers of the unit interval by
/// `n` lies in the unit interval.
pub proof fn lemma_mean_is_in_unit_interval(sum: Fixed, n: u32)
    requires
        0 <= sum.raw,
        sum.raw <= n * ONE_RAW,
    ensures
        sum.div(Fixed::from_count(n)).in_unit_interval(),
{
    let s = ONE_RAW as int;
    let count = Fixed::from_count(n);
    if count.raw > 0 {
        let c = count.raw as int;
        lemma_product_sign(sum.raw as int, s);
        lemma_quot_bounds(sum.raw * s, c);
        let q = quot(sum.raw * s, c);
        assert(sum.raw <= c);
        assert(q <= s) by (nonlinear_arith)
            requires
                q >= 0,
                q * c <= sum.raw * s,
                0 <= sum.raw <= c,
                c > 0,
                s > 0,
        ;
    }
}

} // verus!
