//! The surface materials and the textures that depend on the hit point
//! alone.

use vstd::prelude::*;
use crate::colour::Colour;
use crate::fixed::{Fixed, rounded_quotient};
use crate::vector::WorldPoint;

verus! {

/// One colour everywhere.
#[derive(Debug)]
pub struct FlatMaterial {
    pub colour: Colour,
}

/// Square cells of side `repeat` in the x-z plane of the world, coloured in
/// turn.
#[derive(Debug)]
pub struct CheckerboardMaterial {
    pub colour1: Colour,
    pub colour2: Colour,
    pub repeat: Fixed,
}

/// A ramp along y from `from` at height `from_y` to `to` at height `to_y`.
#[derive(Debug)]
pub struct GradientMaterial {
    pub from: Colour,
    pub to: Colour,
    pub from_y: Fixed,
    pub to_y: Fixed,
}

/// A mirror tinted by the colour of `base`.
#[derive(Debug)]
pub struct ReflectMaterial {
    pub base: Box<Material>,
    pub smoothness: Fixed,
}

/// A lit surface: it emits, takes light from the light sources, shines and
/// mirrors.
#[derive(Debug)]
pub struct LitMaterial {
    pub emit: Box<Material>,
    pub absorb: Box<Material>,
    pub shininess: u32,
    pub specular_amount: Fixed,
    pub reflectivity: Fixed,
    pub roughness: Fixed,
}

/// How a surface is coloured.
#[derive(Debug)]
pub enum Material {
    Flat(FlatMaterial),
    Checkerboard(CheckerboardMaterial),
    Gradient(GradientMaterial),
    Reflect(ReflectMaterial),
    Lit(LitMaterial),
}

/// The cell that `coordinate` falls in: `coordinate / repeat` rounded down,
/// and zero where `repeat` is zero.
pub open spec fn cell_index(coordinate: Fixed, repeat: Fixed) -> int {
    if repeat.raw > 0 {
        coordinate.raw as int / repeat.raw as int
    } else if repeat.raw < 0 {
        (-coordinate.raw) / (-repeat.raw)
    } else {
        0
    }
}

/// `a / b` rounded down, for a positive `b`.
fn floor_quotient(a: i64, b: i64) -> (q: i64)
    requires
        b > 0,
        -0x8000_0000 <= a <= 0x8000_0000,
    ensures
        q as int == a as int / b as int,
{
    if a >= 0 {
        a / b
    } else {
        let m: i64 = -a;
        let q: i64 = m / b;
        let r: i64 = m % b;
        proof {
            vstd::arithmetic::div_mod::lemma_fundamental_div_mod(m as int, b as int);
            vstd::arithmetic::div_mod::lemma_mod_bound(m as int, b as int);
            vstd::arithmetic::div_mod::lemma_div_pos_is_pos(m as int, b as int);
            vstd::arithmetic::div_mod::lemma_div_is_ordered_by_denominator(m as int, 1, b as int);
            assert(0 <= q <= m);
            if r == 0 {
                assert(a as int == (-q) * b + 0) by (nonlinear_arith)
                    requires
                        m == b * q + r,
                        r == 0,
                        a == -m,
                ;
                vstd::arithmetic::div_mod::lemma_fundamental_div_mod_converse_div(
                    a as int,
                    b as int,
                    -q as int,
                    0,
                );
            } else {
                assert(a as int == (-q - 1) * b + (b - r)) by (nonlinear_arith)
                    requires
                        m == b * q + r,
                        a == -m,
                ;
                vstd::arithmetic::div_mod::lemma_fundamental_div_mod_converse_div(
                    a as int,
                    b as int,
                    -q - 1,
                    b - r,
                );
            }
        }
        if r == 0 {
            -q
        } else {
            -q - 1
        }
    }
}

/// The cell that `coordinate` falls in.
fn cell_of(coordinate: Fixed, repeat: Fixed) -> (cell: i64)
    ensures
        cell as int == cell_index(coordinate, repeat),
        -0x8000_0000 <= cell <= 0x8000_0000,
{
    let c: i64 = coordinate.raw as i64;
    let r: i64 = repeat.raw as i64;
    if r > 0 {
        let q = floor_quotient(c, r);
        proof {
            lemma_floor_bound(c as int, r as int);
        }
        q
    } else if r < 0 {
        let q = floor_quotient(-c, -r);
        proof {
            lemma_floor_bound(-c as int, -r as int);
        }
        q
    } else {
        0
    }
}

/// A quotient rounded down is no larger in magnitude than what was divided.
proof fn lemma_floor_bound(a: int, b: int)
    requires
        b > 0,
    ensures
        a >= 0 ==> (0 <= a / b <= a),
        a < 0 ==> (a <= a / b < 0),
{
    vstd::arithmetic::div_mod::lemma_fundamental_div_mod(a, b);
    vstd::arithmetic::div_mod::lemma_mod_bound(a, b);
    let q = a / b;
    let r = a % b;
    assert((a >= 0 ==> 0 <= q <= a) && (a < 0 ==> a <= q < 0)) by (nonlinear_arith)
        requires
            b > 0,
            a == b * q + r,
            0 <= r < b,
    ;
}

/// One channel of the ramp, `num / den` of the way from `from` to `to`:
/// `from` up to the start of the ramp, `to` from its end on, and between
/// them the nearest byte to the straight line.
pub open spec fn ramp_channel(from: u8, to: u8, num: int, den: int) -> u8 {
    if num <= 0 {
        from
    } else if num >= den {
        to
    } else {
        (from + rounded_quotient((to - from) * num, den)) as u8
    }
}

/// The byte between `from` and `to` that `ramp_channel` names.
fn ramp_byte(from: u8, to: u8, num: i64, den: i64) -> (c: u8)
    requires
        0 <= den <= 0x1_0000_0000,
        -0x1_0000_0000 <= num <= 0x1_0000_0000,
    ensures
        c == ramp_channel(from, to, num as int, den as int),
{
    if num <= 0 {
        from
    } else if num >= den {
        to
    } else {
        let span: i64 = to as i64 - from as i64;
        proof {
            crate::fixed::lemma_product_bound(span as int, num as int, 255, 0x1_0000_0000);
            lemma_rounded_quotient_bound(span as int, num as int, den as int);
        }
        let a: i64 = span * num;
        let step: i64 = if a >= 0 {
            (2 * a + den) / (2 * den)
        } else {
            -((den - 2 * a) / (2 * den))
        };
        (from as i64 + step) as u8
    }
}

/// Part of the way along a span, rounded, is at most the span.
proof fn lemma_rounded_quotient_bound(span: int, num: int, den: int)
    requires
        0 < num < den,
    ensures
        span >= 0 ==> (0 <= rounded_quotient(span * num, den) <= span),
        span < 0 ==> (span <= rounded_quotient(span * num, den) <= 0),
{
    let m = if span >= 0 { span } else { -span };
    let a = m * num;
    assert(0 <= a && 2 * a + den < 2 * den * (m + 1) && (span >= 0 ==> span * num == a) && (span < 0
        ==> span * num == -a)) by (nonlinear_arith)
        requires
            a == m * num,
            0 < num < den,
            m >= 0,
            m == span || m == -span,
    ;
    let q = (2 * a + den) / (2 * den);
    vstd::arithmetic::div_mod::lemma_fundamental_div_mod(2 * a + den, 2 * den);
    vstd::arithmetic::div_mod::lemma_mod_bound(2 * a + den, 2 * den);
    let r = (2 * a + den) % (2 * den);
    assert(0 <= q <= m) by (nonlinear_arith)
        requires
            2 * a + den == (2 * den) * q + r,
            0 <= r < 2 * den,
            0 <= a,
            den > 0,
            2 * a + den < 2 * den * (m + 1),
    ;
    if span < 0 {
        let p = span * num;
        assert(den - 2 * p == 2 * a + den);
        if p >= 0 {
            assert(2 * p + den == den);
            vstd::arithmetic::div_mod::lemma_small_div_converse(den, 2 * den);
            vstd::arithmetic::div_mod::lemma_basic_div(den, 2 * den);
        }
    }
}

impl FlatMaterial {
    /// The one colour.
    pub fn colour(&self) -> (c: Colour)
        ensures
            c == self.colour,
    {
        self.colour
    }
}

impl CheckerboardMaterial {
    /// `colour1` where the cell indices along x and z add up to an even
    /// number, `colour2` elsewhere.
    pub open spec fn spec_colour(&self, at: WorldPoint) -> Colour {
        if (cell_index(at.x, self.repeat) + cell_index(at.z, self.repeat)) % 2 == 0 {
            self.colour1
        } else {
            self.colour2
        }
    }

    /// The colour of the cell that `at` falls in.
    pub fn colour(&self, at: WorldPoint) -> (c: Colour)
        ensures
            c == self.spec_colour(at),
    {
        let sum: i64 = cell_of(at.x, self.repeat) + cell_of(at.z, self.repeat);
        let odd: i64 = sum % 2;
        if odd == 0 {
            self.colour1
        } else {
            self.colour2
        }
    }
}

impl GradientMaterial {
    /// How far `y` lies above the start of the ramp, and how long the ramp
    /// is, in raw units, with the length made positive.
    pub open spec fn ramp_position(&self, y: Fixed) -> (int, int) {
        let num = y.raw - self.from_y.raw;
        let den = self.to_y.raw - self.from_y.raw;
        if den < 0 {
            (-num, -den)
        } else {
            (num, den)
        }
    }

    /// The colour at the height of `at`: the three channels of the ramp.
    pub open spec fn spec_colour(&self, at: WorldPoint) -> Colour {
        let (num, den) = self.ramp_position(at.y);
        Colour {
            r: ramp_channel(self.from.r, self.to.r, num, den),
            g: ramp_channel(self.from.g, self.to.g, num, den),
            b: ramp_channel(self.from.b, self.to.b, num, den),
        }
    }

    /// The colour at the height of `at`.
    pub fn colour(&self, at: WorldPoint) -> (c: Colour)
        ensures
            c == self.spec_colour(at),
    {
        let n: i64 = at.y.raw as i64 - self.from_y.raw as i64;
        let d: i64 = self.to_y.raw as i64 - self.from_y.raw as i64;
        let (num, den): (i64, i64) = if d < 0 {
            (-n, -d)
        } else {
            (n, d)
        };
        Colour {
            r: ramp_byte(self.from.r, self.to.r, num, den),
            g: ramp_byte(self.from.g, self.to.g, num, den),
            b: ramp_byte(self.from.b, self.to.b, num, den),
        }
    }
}

/// One cell further along x the other colour shows: a checkerboard
/// alternates between neighbouring cells.
pub proof fn lemma_checkerboard_alternates(
    board: CheckerboardMaterial,
    at: WorldPoint,
    next: WorldPoint,
)
    requires
        board.repeat.raw != 0,
        next.x.raw == at.x.raw + board.repeat.raw,
        next.z == at.z,
    ensures
        board.spec_colour(at) == board.colour1 ==> board.spec_colour(next) == board.colour2,
        board.spec_colour(at) == board.colour2 ==> board.spec_colour(next) == board.colour1,
{
    let r = board.repeat.raw as int;
    let x = at.x.raw as int;
    if r > 0 {
        vstd::arithmetic::div_mod::lemma_div_plus_one(x, r);
    } else {
        vstd::arithmetic::div_mod::lemma_div_plus_one(-x, -r);
    }
    assert(cell_index(next.x, board.repeat) == cell_index(at.x, board.repeat) + 1);
}

/// At the start of a ramp and below it the gradient shows `from`, at its end
/// and above it `to`.
pub proof fn lemma_gradient_clamps(gradient: GradientMaterial, at: WorldPoint)
    requires
        gradient.from_y.raw < gradient.to_y.raw,
    ensures
        at.y.raw <= gradient.from_y.raw ==> gradient.spec_colour(at) == gradient.from,
        at.y.raw >= gradient.to_y.raw ==> gradient.spec_colour(at) == gradient.to,
{
}

} // verus!
