//! Points and directions of the world, three fixed-point coordinates each.

use vstd::prelude::*;
use crate::fixed::{Fixed, ONE_RAW, int_sqrt, isqrt, lemma_int_sqrt, lemma_int_sqrt_bounds_root,
    lemma_product_bound, quotient};

verus! {

/// A point of the world, or a direction in it.
#[derive(Clone, Copy, Debug, PartialEq, Eq, Structural)]
pub struct WorldPoint {
    pub x: Fixed,
    pub y: Fixed,
    pub z: Fixed,
}

/// A direction is held as a point is.
pub type WorldVec = WorldPoint;

/// The sum of the products of the raw coordinates: the dot product, exact,
/// in units of `1 / 65536 / 65536`.
pub open spec fn dot_raw(a: WorldVec, b: WorldVec) -> int {
    a.x.raw * b.x.raw + a.y.raw * b.y.raw + a.z.raw * b.z.raw
}

/// The length of `v` in raw units, rounded down.
pub open spec fn length_raw(v: WorldVec) -> int {
    int_sqrt(dot_raw(v, v))
}

/// One coordinate of a direction brought to length one.
pub open spec fn unit_coordinate(c: Fixed, len: int) -> Fixed {
    Fixed::spec_narrow(quotient(c.raw * ONE_RAW, len))
}

impl WorldPoint {
    pub open spec fn spec_plus(self, rhs: WorldVec) -> WorldPoint {
        WorldPoint {
            x: self.x.spec_saturating_add(rhs.x),
            y: self.y.spec_saturating_add(rhs.y),
            z: self.z.spec_saturating_add(rhs.z),
        }
    }

    pub open spec fn spec_minus(self, rhs: WorldPoint) -> WorldVec {
        WorldPoint {
            x: self.x.spec_saturating_sub(rhs.x),
            y: self.y.spec_saturating_sub(rhs.y),
            z: self.z.spec_saturating_sub(rhs.z),
        }
    }

    pub open spec fn spec_scaled(self, k: Fixed) -> WorldVec {
        WorldPoint {
            x: self.x.spec_saturating_mul(k),
            y: self.y.spec_saturating_mul(k),
            z: self.z.spec_saturating_mul(k),
        }
    }

    /// The dot product, rounded once.
    pub open spec fn spec_dot(self, rhs: WorldVec) -> Fixed {
        Fixed::spec_narrow(quotient(dot_raw(self, rhs), ONE_RAW as int))
    }

    /// The direction of `self` at length one; the zero vector where `self`
    /// is shorter than one raw unit.
    pub open spec fn spec_normalize(self) -> WorldVec {
        let len = length_raw(self);
        if len == 0 {
            WorldPoint { x: Fixed { raw: 0 }, y: Fixed { raw: 0 }, z: Fixed { raw: 0 } }
        } else {
            WorldPoint {
                x: unit_coordinate(self.x, len),
                y: unit_coordinate(self.y, len),
                z: unit_coordinate(self.z, len),
            }
        }
    }

    /// `self` mirrored at the plane whose normal is `normal`:
    /// `self - normal * 2 * (self . normal)`.
    pub open spec fn spec_reflect(self, normal: WorldVec) -> WorldVec {
        self.spec_minus(normal.spec_scaled(Fixed { raw: 131072 }).spec_scaled(self.spec_dot(normal)))
    }

    /// Whether no coordinate exceeds one in magnitude.
    pub open spec fn in_unit_box(self) -> bool {
        &&& -ONE_RAW <= self.x.raw <= ONE_RAW
        &&& -ONE_RAW <= self.y.raw <= ONE_RAW
        &&& -ONE_RAW <= self.z.raw <= ONE_RAW
    }

    pub fn new(x: Fixed, y: Fixed, z: Fixed) -> (p: WorldPoint)
        ensures
            p == (WorldPoint { x, y, z }),
    {
        WorldPoint { x, y, z }
    }

    /// The sum, coordinate by coordinate.
    pub fn plus(self, rhs: WorldVec) -> (p: WorldPoint)
        ensures
            p == self.spec_plus(rhs),
    {
        WorldPoint {
            x: self.x.saturating_add(rhs.x),
            y: self.y.saturating_add(rhs.y),
            z: self.z.saturating_add(rhs.z),
        }
    }

    /// The difference, coordinate by coordinate.
    pub fn minus(self, rhs: WorldPoint) -> (v: WorldVec)
        ensures
            v == self.spec_minus(rhs),
    {
        WorldPoint {
            x: self.x.saturating_sub(rhs.x),
            y: self.y.saturating_sub(rhs.y),
            z: self.z.saturating_sub(rhs.z),
        }
    }

    /// Every coordinate multiplied by `k`.
    pub fn scaled(self, k: Fixed) -> (v: WorldVec)
        ensures
            v == self.spec_scaled(k),
    {
        WorldPoint {
            x: self.x.saturating_mul(k),
            y: self.y.saturating_mul(k),
            z: self.z.saturating_mul(k),
        }
    }

    /// The exact dot product in units of `1 / 65536 / 65536`.
    pub fn dot_wide(self, rhs: WorldVec) -> (d: i128)
        ensures
            d as int == dot_raw(self, rhs),
            -0xC000_0000_0000_0000 <= d <= 0xC000_0000_0000_0000,
    {
        proof {
            lemma_product_bound(self.x.raw as int, rhs.x.raw as int, 0x8000_0000, 0x8000_0000);
            lemma_product_bound(self.y.raw as int, rhs.y.raw as int, 0x8000_0000, 0x8000_0000);
            lemma_product_bound(self.z.raw as int, rhs.z.raw as int, 0x8000_0000, 0x8000_0000);
        }
        (self.x.raw as i128) * (rhs.x.raw as i128) + (self.y.raw as i128) * (rhs.y.raw as i128)
            + (self.z.raw as i128) * (rhs.z.raw as i128)
    }

    /// The dot product.
    pub fn dot(self, rhs: WorldVec) -> (d: Fixed)
        ensures
            d == self.spec_dot(rhs),
    {
        Fixed::narrow(self.dot_wide(rhs) / 65536)
    }

    /// The direction of `self` at length one; the zero vector where `self`
    /// is shorter than one raw unit.
    pub fn normalize(self) -> (v: WorldVec)
        ensures
            v == self.spec_normalize(),
            v.in_unit_box(),
    {
        let square = self.dot_wide(self);
        proof {
            lemma_square_nonnegative(self);
            lemma_normalize_in_unit_box(self);
        }
        let len = isqrt(square as u128);
        if len == 0 {
            WorldPoint { x: Fixed { raw: 0 }, y: Fixed { raw: 0 }, z: Fixed { raw: 0 } }
        } else {
            let l = len as i128;
            WorldPoint {
                x: Fixed::narrow((self.x.raw as i128) * 65536 / l),
                y: Fixed::narrow((self.y.raw as i128) * 65536 / l),
                z: Fixed::narrow((self.z.raw as i128) * 65536 / l),
            }
        }
    }

    /// `self` mirrored at the plane whose normal is `normal`.
    pub fn reflect(self, normal: WorldVec) -> (v: WorldVec)
        ensures
            v == self.spec_reflect(normal),
    {
        self.minus(normal.scaled(Fixed { raw: 131072 }).scaled(self.dot(normal)))
    }
}

/// The dot product of a vector with itself is not negative.
pub proof fn lemma_square_nonnegative(v: WorldVec)
    ensures
        dot_raw(v, v) >= 0,
        v.x.raw * v.x.raw <= dot_raw(v, v),
        v.y.raw * v.y.raw <= dot_raw(v, v),
        v.z.raw * v.z.raw <= dot_raw(v, v),
{
    let (a, b, c) = (v.x.raw as int, v.y.raw as int, v.z.raw as int);
    assert(a * a >= 0 && b * b >= 0 && c * c >= 0) by (nonlinear_arith);
}

/// `quotient(a, d)` is bounded by `k` where `a` is bounded by `k * d`.
pub proof fn lemma_quotient_bound(a: int, d: int, k: int)
    requires
        d > 0,
        k >= 0,
        -(k * d) <= a <= k * d,
    ensures
        -k <= quotient(a, d) <= k,
{
    let m = if a >= 0 { a } else { -a };
    let q = m / d;
    vstd::arithmetic::div_mod::lemma_fundamental_div_mod(m, d);
    vstd::arithmetic::div_mod::lemma_mod_bound(m, d);
    assert(0 <= q <= k) by (nonlinear_arith)
        requires
            d > 0,
            k >= 0,
            0 <= m <= k * d,
            m == d * q + m % d,
            0 <= m % d < d,
    ;
}

/// No coordinate of a normalized direction exceeds one in magnitude.
pub proof fn lemma_normalize_in_unit_box(v: WorldVec)
    ensures
        v.spec_normalize().in_unit_box(),
{
    let len = length_raw(v);
    lemma_square_nonnegative(v);
    lemma_int_sqrt(dot_raw(v, v));
    if len != 0 {
        lemma_coordinate_in_unit(v.x, dot_raw(v, v));
        lemma_coordinate_in_unit(v.y, dot_raw(v, v));
        lemma_coordinate_in_unit(v.z, dot_raw(v, v));
    }
}

/// A coordinate divided by a length that its square does not exceed is at
/// most one in magnitude.
pub proof fn lemma_coordinate_in_unit(c: Fixed, square: int)
    requires
        c.raw * c.raw <= square,
        int_sqrt(square) > 0,
    ensures
        -ONE_RAW <= unit_coordinate(c, int_sqrt(square)).raw <= ONE_RAW,
{
    let len = int_sqrt(square);
    let m: int = if c.raw >= 0 { c.raw as int } else { -c.raw };
    assert(m * m == c.raw * c.raw) by (nonlinear_arith)
        requires
            m == c.raw || m == -c.raw,
    ;
    lemma_int_sqrt_bounds_root(m, square);
    assert(-(65536 * len) <= c.raw * 65536 <= 65536 * len);
    lemma_quotient_bound(c.raw * 65536, len, 65536);
}

/// A coordinate that is more than half the length in magnitude is, divided
/// by the length, at least a half.
proof fn lemma_long_coordinate(c: Fixed, len: int)
    requires
        len > 0,
        len < 2 * c.raw || len < -2 * c.raw,
        -len <= c.raw <= len,
    ensures
        unit_coordinate(c, len).raw >= 32768 || unit_coordinate(c, len).raw <= -32768,
{
    let mag: int = if c.raw >= 0 { c.raw as int } else { -c.raw };
    let x = mag * 65536;
    assert(32768 * len <= x);
    vstd::arithmetic::div_mod::lemma_div_is_ordered(32768 * len, x, len);
    vstd::arithmetic::div_mod::lemma_div_multiples_vanish(32768, len);
    assert(len * 32768 == 32768 * len);
    assert(x / len >= 32768);
    lemma_quotient_bound(c.raw * 65536, len, 65536);
}

/// A direction brought to length one is at least half a unit long, where
/// it is not the zero vector: its dot product with itself is at least a
/// quarter.
pub proof fn lemma_normalize_is_long(v: WorldVec)
    requires
        length_raw(v) > 0,
    ensures
        dot_raw(v.spec_normalize(), v.spec_normalize()) >= 0x4000_0000,
{
    let square = dot_raw(v, v);
    let len = length_raw(v);
    let n = v.spec_normalize();
    lemma_square_nonnegative(v);
    lemma_square_nonnegative(n);
    lemma_int_sqrt(square);
    let (x, y, z) = (v.x.raw as int, v.y.raw as int, v.z.raw as int);
    let (ax, ay, az) = (
        if x >= 0 { x } else { -x },
        if y >= 0 { y } else { -y },
        if z >= 0 { z } else { -z },
    );
    assert(ax * ax == x * x) by (nonlinear_arith)
        requires
            ax == x || ax == -x,
    ;
    lemma_int_sqrt_bounds_root(ax, square);
    assert(ay * ay == y * y) by (nonlinear_arith)
        requires
            ay == y || ay == -y,
    ;
    lemma_int_sqrt_bounds_root(ay, square);
    assert(az * az == z * z) by (nonlinear_arith)
        requires
            az == z || az == -z,
    ;
    lemma_int_sqrt_bounds_root(az, square);
    let top = if ax >= ay && ax >= az { ax } else if ay >= az { ay } else { az };
    assert(len < 2 * top) by (nonlinear_arith)
        requires
            len > 0,
            len * len <= square,
            square == x * x + y * y + z * z,
            ax * ax == x * x,
            ay * ay == y * y,
            az * az == z * z,
            0 <= ax <= top,
            0 <= ay <= top,
            0 <= az <= top,
    ;
    let c = if ax >= ay && ax >= az { v.x } else if ay >= az { v.y } else { v.z };
    lemma_long_coordinate(c, len);
    let u = unit_coordinate(c, len).raw as int;
    assert(u * u >= 0x4000_0000) by (nonlinear_arith)
        requires
            u >= 32768 || u <= -32768,
    ;
}

} // verus!
