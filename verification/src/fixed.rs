//! Signed fixed-point numbers with sixteen fractional bits.
//!
//! Every operation is total: a result that does not fit is pinned to the
//! nearest representable value, and every quotient is rounded toward zero
//! unless the operation says otherwise.

use vstd::prelude::*;

verus! {

/// The raw value of the number one.
pub const ONE_RAW: i32 = 65536;

/// The nearest value to `v` that fits in the raw range.
pub open spec fn saturate(v: int) -> int {
    if v < -0x8000_0000 {
        -0x8000_0000
    } else if v > 0x7fff_ffff {
        0x7fff_ffff
    } else {
        v
    }
}

/// `a / b` rounded toward zero, for a positive `b`.
pub open spec fn quotient(a: int, b: int) -> int {
    if a >= 0 {
        a / b
    } else {
        -((-a) / b)
    }
}

/// `a / b` rounded to the nearest integer, halves away from zero, for a
/// positive `b`.
pub open spec fn rounded_quotient(a: int, b: int) -> int {
    if a >= 0 {
        (2 * a + b) / (2 * b)
    } else {
        -((b - 2 * a) / (2 * b))
    }
}

/// The integer square root: the largest `r` with `r * r <= x`, and zero for
/// a negative `x`.
pub open spec fn int_sqrt(x: int) -> int
    decreases x,
{
    if x <= 0 {
        0
    } else {
        let r = 2 * int_sqrt(x / 4);
        if (r + 1) * (r + 1) <= x {
            r + 1
        } else {
            r
        }
    }
}

/// `int_sqrt(x)` is the floor of the square root of `x`.
pub proof fn lemma_int_sqrt(x: int)
    requires
        x >= 0,
    ensures
        int_sqrt(x) >= 0,
        int_sqrt(x) * int_sqrt(x) <= x,
        x < (int_sqrt(x) + 1) * (int_sqrt(x) + 1),
    decreases x,
{
    if x > 0 {
        let q = x / 4;
        lemma_int_sqrt(q);
        let h = int_sqrt(q);
        let r = 2 * h;
        assert(r * r <= x && x < (r + 2) * (r + 2)) by (nonlinear_arith)
            requires
                r == 2 * h,
                h >= 0,
                h * h <= q,
                q < (h + 1) * (h + 1),
                4 * q <= x,
                x < 4 * q + 4,
        ;
        assert((r + 1) + 1 == r + 2);
    }
}

/// Only one number lies within one of the square root from below.
pub proof fn lemma_int_sqrt_unique(x: int, r: int)
    requires
        r >= 0,
        r * r <= x,
        x < (r + 1) * (r + 1),
    ensures
        r == int_sqrt(x),
{
    lemma_int_sqrt(x);
    let s = int_sqrt(x);
    assert(r == s) by (nonlinear_arith)
        requires
            r >= 0,
            s >= 0,
            r * r <= x,
            x < (r + 1) * (r + 1),
            s * s <= x,
            x < (s + 1) * (s + 1),
    ;
}

/// A number is at most the square root of anything its square does not
/// exceed.
pub proof fn lemma_int_sqrt_bounds_root(v: int, x: int)
    requires
        v >= 0,
        v * v <= x,
    ensures
        v <= int_sqrt(x),
{
    lemma_int_sqrt(x);
    let s = int_sqrt(x);
    assert(v <= s) by (nonlinear_arith)
        requires
            v >= 0,
            s >= 0,
            v * v <= x,
            x < (s + 1) * (s + 1),
    ;
}

/// The integer square root of `x`.
pub fn isqrt(x: u128) -> (r: u64)
    ensures
        r as int == int_sqrt(x as int),
{
    let mut lo: u128 = 0;
    let mut hi: u128 = 0x1_0000_0000_0000_0000;
    assert(x < hi * hi) by (nonlinear_arith)
        requires
            hi == 0x1_0000_0000_0000_0000,
            x <= 0xffff_ffff_ffff_ffff_ffff_ffff_ffff_ffff,
    ;
    while hi - lo > 1
        invariant
            lo < hi <= 0x1_0000_0000_0000_0000,
            lo * lo <= x,
            x < hi * hi,
        decreases hi - lo,
    {
        let mid: u128 = lo + (hi - lo) / 2;
        assert(mid * mid <= 0xffff_ffff_ffff_ffff_ffff_ffff_ffff_ffff) by (nonlinear_arith)
            requires
                0 <= mid <= 0xffff_ffff_ffff_ffff,
        ;
        if mid * mid <= x {
            lo = mid;
        } else {
            hi = mid;
        }
    }
    proof {
        assert(hi == lo + 1);
        lemma_int_sqrt_unique(x as int, lo as int);
    }
    lo as u64
}

/// A fixed-point number: `raw / 65536`.
#[derive(Clone, Copy, Debug, PartialEq, Eq, Structural)]
pub struct Fixed {
    pub raw: i32,
}

impl Fixed {
    /// The number whose raw value is `saturate(v)`.
    pub open spec fn spec_narrow(v: int) -> Fixed {
        Fixed { raw: saturate(v) as i32 }
    }

    pub open spec fn spec_from_int(n: int) -> Fixed {
        Fixed::spec_narrow(n * ONE_RAW)
    }

    /// `num / den`, rounded toward zero; zero where `den` is zero.
    pub open spec fn spec_from_ratio(num: int, den: int) -> Fixed {
        if den > 0 {
            Fixed::spec_narrow(quotient(num * ONE_RAW, den))
        } else if den < 0 {
            Fixed::spec_narrow(quotient(-num * ONE_RAW, -den))
        } else {
            Fixed { raw: 0 }
        }
    }

    pub open spec fn spec_saturating_add(self, rhs: Fixed) -> Fixed {
        Fixed::spec_narrow(self.raw + rhs.raw)
    }

    pub open spec fn spec_saturating_sub(self, rhs: Fixed) -> Fixed {
        Fixed::spec_narrow(self.raw - rhs.raw)
    }

    pub open spec fn spec_saturating_mul(self, rhs: Fixed) -> Fixed {
        Fixed::spec_narrow(quotient(self.raw * rhs.raw, ONE_RAW as int))
    }

    /// `self` raised to the power `n` by squaring, each product rounded as
    /// `spec_saturating_mul` rounds it.
    pub open spec fn spec_powi(self, n: nat) -> Fixed
        decreases n,
    {
        if n == 0 {
            Fixed { raw: ONE_RAW }
        } else if n % 2 == 0 {
            let half = self.spec_powi(n / 2);
            half.spec_saturating_mul(half)
        } else {
            self.spec_saturating_mul(self.spec_powi((n - 1) as nat))
        }
    }

    /// Whether the number lies between zero and one, both included.
    pub open spec fn is_unit_fraction(self) -> bool {
        0 <= self.raw <= ONE_RAW
    }

    /// `self` pinned to the range from zero to one.
    pub open spec fn spec_clamp_unit(self) -> Fixed {
        if self.raw < 0 {
            Fixed { raw: 0 }
        } else if self.raw > ONE_RAW {
            Fixed { raw: ONE_RAW }
        } else {
            self
        }
    }

    /// The number with the raw value nearest to `v`.
    pub fn narrow(v: i128) -> (r: Fixed)
        ensures
            r == Fixed::spec_narrow(v as int),
    {
        if v < -0x8000_0000 {
            Fixed { raw: -0x8000_0000 }
        } else if v > 0x7fff_ffff {
            Fixed { raw: 0x7fff_ffff }
        } else {
            Fixed { raw: v as i32 }
        }
    }

    /// The whole number `n`, pinned to the representable range.
    pub fn from_int(n: i32) -> (r: Fixed)
        ensures
            r == Fixed::spec_from_int(n as int),
    {
        let wide: i64 = (n as i64) * 65536;
        Fixed::narrow(wide as i128)
    }

    /// The fraction `num / den`, rounded toward zero and pinned to the
    /// representable range; zero where `den` is zero.
    pub fn from_ratio(num: i32, den: i32) -> (r: Fixed)
        ensures
            r == Fixed::spec_from_ratio(num as int, den as int),
    {
        if den == 0 {
            return Fixed { raw: 0 };
        }
        let n: i64 = (num as i64) * 65536;
        if den > 0 {
            Fixed::narrow((n / (den as i64)) as i128)
        } else {
            Fixed::narrow(((-n) / (-(den as i64))) as i128)
        }
    }

    pub fn saturating_add(self, rhs: Fixed) -> (r: Fixed)
        ensures
            r == self.spec_saturating_add(rhs),
    {
        Fixed::narrow((self.raw as i128) + (rhs.raw as i128))
    }

    pub fn saturating_sub(self, rhs: Fixed) -> (r: Fixed)
        ensures
            r == self.spec_saturating_sub(rhs),
    {
        Fixed::narrow((self.raw as i128) - (rhs.raw as i128))
    }

    pub fn saturating_mul(self, rhs: Fixed) -> (r: Fixed)
        ensures
            r == self.spec_saturating_mul(rhs),
    {
        proof {
            lemma_product_bound(self.raw as int, rhs.raw as int, 0x8000_0000, 0x8000_0000);
        }
        let wide: i128 = (self.raw as i128) * (rhs.raw as i128);
        Fixed::narrow(wide / 65536)
    }

    /// `self` raised to the power `n`.
    pub fn powi(self, n: u32) -> (r: Fixed)
        ensures
            r == self.spec_powi(n as nat),
        decreases n,
    {
        if n == 0 {
            Fixed { raw: ONE_RAW }
        } else if n % 2 == 0 {
            let half = self.powi(n / 2);
            half.saturating_mul(half)
        } else {
            self.saturating_mul(self.powi(n - 1))
        }
    }

    /// `self` pinned to the range from zero to one.
    pub fn clamp_unit(self) -> (r: Fixed)
        ensures
            r == self.spec_clamp_unit(),
            r.is_unit_fraction(),
    {
        if self.raw < 0 {
            Fixed { raw: 0 }
        } else if self.raw > ONE_RAW {
            Fixed { raw: ONE_RAW }
        } else {
            self
        }
    }
}

/// The product of two numbers bounded in magnitude is bounded by the product
/// of the bounds.
pub proof fn lemma_product_bound(a: int, b: int, m: int, n: int)
    requires
        -m <= a <= m,
        -n <= b <= n,
    ensures
        -(m * n) <= a * b <= m * n,
{
    assert(-(m * n) <= a * b <= m * n) by (nonlinear_arith)
        requires
            -m <= a <= m,
            -n <= b <= n,
    ;
}

/// A power of a number between zero and one lies between zero and one.
pub proof fn lemma_powi_unit(base: Fixed, n: nat)
    requires
        base.is_unit_fraction(),
    ensures
        base.spec_powi(n).is_unit_fraction(),
    decreases n,
{
    if n == 0 {
    } else if n % 2 == 0 {
        lemma_powi_unit(base, n / 2);
        let half = base.spec_powi(n / 2);
        lemma_mul_unit(half, half);
    } else {
        lemma_powi_unit(base, (n - 1) as nat);
        lemma_mul_unit(base, base.spec_powi((n - 1) as nat));
    }
}

/// The product of two numbers between zero and one lies between zero and
/// one.
pub proof fn lemma_mul_unit(a: Fixed, b: Fixed)
    requires
        a.is_unit_fraction(),
        b.is_unit_fraction(),
    ensures
        a.spec_saturating_mul(b).is_unit_fraction(),
{
    let p = a.raw * b.raw;
    assert(0 <= p <= 65536 * 65536) by (nonlinear_arith)
        requires
            p == a.raw * b.raw,
            0 <= a.raw <= 65536,
            0 <= b.raw <= 65536,
    ;
}

} // verus!
