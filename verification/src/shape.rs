//! The shapes: where a ray meets them, their normals, and which points they
//! hold. A shape has no place of its own: it sits where its object is.

use vstd::prelude::*;
use crate::fixed::{Fixed, ONE_RAW, int_sqrt, isqrt, lemma_int_sqrt, lemma_product_bound, quotient};
use crate::vector::{WorldPoint, WorldVec, dot_raw};
use crate::world::WorldObject;

verus! {

/// A sphere round the place of its object.
#[derive(Clone, Copy, Debug)]
pub struct Sphere {
    pub radius: Fixed,
}

/// A rectangle that faces up, `width` along x and `height` along z, with the
/// place of its object in the middle.
#[derive(Clone, Copy, Debug)]
pub struct Plane {
    pub width: Fixed,
    pub height: Fixed,
}

/// The form of an object.
#[derive(Clone, Copy, Debug)]
pub enum Shape {
    Sphere(Sphere),
    Plane(Plane),
}

/// The dot product of `d` with the way from `center` to `pos`, exact, in
/// units of `1 / 65536 / 65536`.
pub open spec fn offset_dot(d: WorldVec, pos: WorldPoint, center: WorldPoint) -> int {
    d.x.raw * (pos.x.raw - center.x.raw) + d.y.raw * (pos.y.raw - center.y.raw) + d.z.raw * (
    pos.z.raw - center.z.raw)
}

/// The square of the distance from `center` to `pos`, exact, in units of
/// `1 / 65536 / 65536`.
pub open spec fn offset_square(pos: WorldPoint, center: WorldPoint) -> int {
    (pos.x.raw - center.x.raw) * (pos.x.raw - center.x.raw) + (pos.y.raw - center.y.raw) * (
    pos.y.raw - center.y.raw) + (pos.z.raw - center.z.raw) * (pos.z.raw - center.z.raw)
}

/// A quarter of the discriminant of the equation that the line from `pos`
/// along `d` and the sphere round `center` give: the line meets the sphere
/// where this is not negative.
pub open spec fn sphere_discriminant(
    center: WorldPoint,
    radius: Fixed,
    pos: WorldPoint,
    d: WorldVec,
) -> int {
    let b = offset_dot(d, pos, center);
    b * b - dot_raw(d, d) * (offset_square(pos, center) - radius.raw * radius.raw)
}

/// The distance along `d`, in raw units and rounded toward zero, of the root
/// with the numerator `num` of the sphere's equation.
pub open spec fn sphere_root(num: int, d: WorldVec) -> int {
    quotient(num * ONE_RAW, dot_raw(d, d))
}

/// How far along `d` the line from `pos` crosses the height of `center`, in
/// raw units and rounded toward zero.
pub open spec fn plane_distance(center: WorldPoint, pos: WorldPoint, d: WorldVec) -> int {
    let num = (center.y.raw - pos.y.raw) * ONE_RAW;
    if d.y.raw > 0 {
        quotient(num, d.y.raw as int)
    } else {
        quotient(-num, -d.y.raw)
    }
}

impl Sphere {
    /// The nearest distance greater than zero at which the ray from `pos`
    /// along `dir` meets the sphere: the smaller root where it is positive,
    /// else the larger one where that is positive.
    pub open spec fn spec_intersect(self, obj: WorldObject, pos: WorldPoint, dir: WorldVec) -> Option<
        Fixed,
    > {
        let d = dir.spec_normalize();
        let b = offset_dot(d, pos, obj.position);
        let disc = sphere_discriminant(obj.position, self.radius, pos, d);
        if dot_raw(d, d) == 0 || disc < 0 {
            None
        } else {
            let near = sphere_root(-b - int_sqrt(disc), d);
            let far = sphere_root(-b + int_sqrt(disc), d);
            if near > 0 {
                Some(Fixed::spec_narrow(near))
            } else if far > 0 {
                Some(Fixed::spec_narrow(far))
            } else {
                None
            }
        }
    }

    /// The direction from the centre to `pos`, at length one.
    pub open spec fn spec_normal(self, obj: WorldObject, pos: WorldPoint) -> WorldVec {
        pos.spec_minus(obj.position).spec_normalize()
    }

    /// Whether `pos` is no farther from the centre than the radius.
    pub open spec fn spec_contains(self, obj: WorldObject, pos: WorldPoint) -> bool {
        offset_square(pos, obj.position) <= self.radius.raw * self.radius.raw
    }

    /// Where the ray from `pos` along `dir` first meets the sphere.
    pub fn intersect(&self, obj: &WorldObject, pos: WorldPoint, dir: WorldVec) -> (t: Option<Fixed>)
        ensures
            t == self.spec_intersect(*obj, pos, dir),
            t is Some ==> t->0.raw > 0,
    {
        let d = dir.normalize();
        let mx: i128 = pos.x.raw as i128 - obj.position.x.raw as i128;
        let my: i128 = pos.y.raw as i128 - obj.position.y.raw as i128;
        let mz: i128 = pos.z.raw as i128 - obj.position.z.raw as i128;
        proof {
            lemma_product_bound(d.x.raw as int, mx as int, 0x1_0000, 0x1_0000_0000);
            lemma_product_bound(d.y.raw as int, my as int, 0x1_0000, 0x1_0000_0000);
            lemma_product_bound(d.z.raw as int, mz as int, 0x1_0000, 0x1_0000_0000);
            lemma_product_bound(d.x.raw as int, d.x.raw as int, 0x1_0000, 0x1_0000);
            lemma_product_bound(d.y.raw as int, d.y.raw as int, 0x1_0000, 0x1_0000);
            lemma_product_bound(d.z.raw as int, d.z.raw as int, 0x1_0000, 0x1_0000);
            lemma_product_bound(mx as int, mx as int, 0x1_0000_0000, 0x1_0000_0000);
            lemma_product_bound(my as int, my as int, 0x1_0000_0000, 0x1_0000_0000);
            lemma_product_bound(mz as int, mz as int, 0x1_0000_0000, 0x1_0000_0000);
            lemma_product_bound(
                self.radius.raw as int,
                self.radius.raw as int,
                0x8000_0000,
                0x8000_0000,
            );
            crate::vector::lemma_square_nonnegative(d);
        }
        let b: i128 = (d.x.raw as i128) * mx + (d.y.raw as i128) * my + (d.z.raw as i128) * mz;
        let a: i128 = d.dot_wide(d);
        let c: i128 = mx * mx + my * my + mz * mz - (self.radius.raw as i128) * (
        self.radius.raw as i128);
        proof {
            lemma_product_bound(b as int, b as int, 0x3_0000_0000_0000, 0x3_0000_0000_0000);
            lemma_product_bound(a as int, c as int, 0x3_0000_0000, 0x4_0000_0000_0000_0000);
        }
        let disc: i128 = b * b - a * c;
        if a == 0 || disc < 0 {
            return None;
        }
        let s: i128 = isqrt(disc as u128) as i128;
        proof {
            lemma_int_sqrt(disc as int);
            assert(s <= 0x10_0000_0000_0000) by (nonlinear_arith)
                requires
                    s >= 0,
                    s * s <= disc,
                    disc <= 0x100_0000_0000_0000_0000_0000_0000,
            ;
        }
        let near: i128 = (-b - s) * 65536 / a;
        let far: i128 = (-b + s) * 65536 / a;
        if near > 0 {
            Some(Fixed::narrow(near))
        } else if far > 0 {
            Some(Fixed::narrow(far))
        } else {
            None
        }
    }

    /// The direction from the centre to `pos`, at length one.
    pub fn normal(&self, obj: &WorldObject, pos: WorldPoint) -> (n: WorldVec)
        ensures
            n == self.spec_normal(*obj, pos),
    {
        pos.minus(obj.position).normalize()
    }

    /// Whether `pos` is no farther from the centre than the radius.
    pub fn contains(&self, obj: &WorldObject, pos: WorldPoint) -> (inside: bool)
        ensures
            inside == self.spec_contains(*obj, pos),
    {
        let mx: i128 = pos.x.raw as i128 - obj.position.x.raw as i128;
        let my: i128 = pos.y.raw as i128 - obj.position.y.raw as i128;
        let mz: i128 = pos.z.raw as i128 - obj.position.z.raw as i128;
        proof {
            lemma_product_bound(mx as int, mx as int, 0x1_0000_0000, 0x1_0000_0000);
            lemma_product_bound(my as int, my as int, 0x1_0000_0000, 0x1_0000_0000);
            lemma_product_bound(mz as int, mz as int, 0x1_0000_0000, 0x1_0000_0000);
            lemma_product_bound(
                self.radius.raw as int,
                self.radius.raw as int,
                0x8000_0000,
                0x8000_0000,
            );
        }
        mx * mx + my * my + mz * mz <= (self.radius.raw as i128) * (self.radius.raw as i128)
    }
}

impl Plane {
    /// Whether `p`, seen from above, lies on the rectangle: no farther from
    /// the middle than half the width along x and half the height along z.
    pub open spec fn covers(self, obj: WorldObject, p: WorldPoint) -> bool {
        &&& -self.width.raw <= 2 * (p.x.raw - obj.position.x.raw) <= self.width.raw
        &&& -self.height.raw <= 2 * (p.z.raw - obj.position.z.raw) <= self.height.raw
    }

    /// The point at which the line from `pos` along `dir` crosses the height
    /// of the rectangle.
    pub open spec fn crossing(self, obj: WorldObject, pos: WorldPoint, dir: WorldVec) -> WorldPoint {
        let d = dir.spec_normalize();
        d.spec_scaled(Fixed::spec_narrow(plane_distance(obj.position, pos, d))).spec_plus(pos)
    }

    /// The distance at which the ray from `pos` along `dir` crosses the
    /// height of the rectangle, where that distance is greater than zero and
    /// the crossing lies on the rectangle. A ray that runs level meets
    /// nothing.
    pub open spec fn spec_intersect(self, obj: WorldObject, pos: WorldPoint, dir: WorldVec) -> Option<
        Fixed,
    > {
        let d = dir.spec_normalize();
        let t = plane_distance(obj.position, pos, d);
        if d.y.raw != 0 && t > 0 && self.covers(obj, self.crossing(obj, pos, dir)) {
            Some(Fixed::spec_narrow(t))
        } else {
            None
        }
    }

    /// Straight up.
    pub open spec fn spec_normal(self) -> WorldVec {
        WorldPoint { x: Fixed { raw: 0 }, y: Fixed { raw: ONE_RAW }, z: Fixed { raw: 0 } }
    }

    /// Whether `pos` lies on the rectangle, less than a hundredth above or
    /// below it.
    pub open spec fn spec_contains(self, obj: WorldObject, pos: WorldPoint) -> bool {
        &&& self.covers(obj, pos)
        &&& -ONE_RAW < 100 * (pos.y.raw - obj.position.y.raw) < ONE_RAW
    }

    /// Whether `p`, seen from above, lies on the rectangle.
    fn over(&self, obj: &WorldObject, p: WorldPoint) -> (on: bool)
        ensures
            on == self.covers(*obj, p),
    {
        let dx: i64 = 2 * (p.x.raw as i64 - obj.position.x.raw as i64);
        let dz: i64 = 2 * (p.z.raw as i64 - obj.position.z.raw as i64);
        let w: i64 = self.width.raw as i64;
        let h: i64 = self.height.raw as i64;
        -w <= dx && dx <= w && -h <= dz && dz <= h
    }

    /// Where the ray from `pos` along `dir` meets the rectangle: it is met
    /// where the ray does not run level, crosses the height of the rectangle
    /// ahead of its start, and the crossing lies on the rectangle, and only
    /// there.
    pub fn intersect(&self, obj: &WorldObject, pos: WorldPoint, dir: WorldVec) -> (t: Option<Fixed>)
        ensures
            t == self.spec_intersect(*obj, pos, dir),
            t is Some <==> {
                &&& dir.spec_normalize().y.raw != 0
                &&& plane_distance(obj.position, pos, dir.spec_normalize()) > 0
                &&& self.covers(*obj, self.crossing(*obj, pos, dir))
            },
            t is Some ==> t->0.raw > 0,
    {
        let d = dir.normalize();
        if d.y.raw == 0 {
            return None;
        }
        let num: i64 = (obj.position.y.raw as i64 - pos.y.raw as i64) * 65536;
        let t: i64 = if d.y.raw > 0 {
            num / (d.y.raw as i64)
        } else {
            (-num) / (-(d.y.raw as i64))
        };
        if t <= 0 {
            return None;
        }
        let distance = Fixed::narrow(t as i128);
        let crossing = d.scaled(distance).plus(pos);
        if self.over(obj, crossing) {
            Some(distance)
        } else {
            None
        }
    }

    /// Straight up.
    pub fn normal(&self) -> (n: WorldVec)
        ensures
            n == self.spec_normal(),
    {
        WorldPoint { x: Fixed { raw: 0 }, y: Fixed { raw: 65536 }, z: Fixed { raw: 0 } }
    }

    /// Whether `pos` lies on the rectangle, less than a hundredth above or
    /// below it.
    pub fn contains(&self, obj: &WorldObject, pos: WorldPoint) -> (inside: bool)
        ensures
            inside == self.spec_contains(*obj, pos),
    {
        let dy: i64 = 100 * (pos.y.raw as i64 - obj.position.y.raw as i64);
        self.over(obj, pos) && -65536 < dy && dy < 65536
    }
}

impl Shape {
    pub open spec fn spec_intersect(self, obj: WorldObject, pos: WorldPoint, dir: WorldVec) -> Option<
        Fixed,
    > {
        match self {
            Shape::Sphere(s) => s.spec_intersect(obj, pos, dir),
            Shape::Plane(p) => p.spec_intersect(obj, pos, dir),
        }
    }

    pub open spec fn spec_normal(self, obj: WorldObject, pos: WorldPoint) -> WorldVec {
        match self {
            Shape::Sphere(s) => s.spec_normal(obj, pos),
            Shape::Plane(p) => p.spec_normal(),
        }
    }

    pub open spec fn spec_contains(self, obj: WorldObject, pos: WorldPoint) -> bool {
        match self {
            Shape::Sphere(s) => s.spec_contains(obj, pos),
            Shape::Plane(p) => p.spec_contains(obj, pos),
        }
    }

    /// The distance, greater than zero, at which the ray from `pos` along
    /// `dir` first meets the shape at the place of `obj`.
    pub fn intersect(&self, obj: &WorldObject, pos: WorldPoint, dir: WorldVec) -> (t: Option<Fixed>)
        ensures
            t == self.spec_intersect(*obj, pos, dir),
            t is Some ==> t->0.raw > 0,
    {
        match self {
            Shape::Sphere(s) => s.intersect(obj, pos, dir),
            Shape::Plane(p) => p.intersect(obj, pos, dir),
        }
    }

    /// The direction, of length one, in which the surface faces at `pos`.
    pub fn normal(&self, obj: &WorldObject, pos: WorldPoint) -> (n: WorldVec)
        ensures
            n == self.spec_normal(*obj, pos),
    {
        match self {
            Shape::Sphere(s) => s.normal(obj, pos),
            Shape::Plane(p) => p.normal(),
        }
    }

    /// Whether `pos` belongs to the shape at the place of `obj`.
    pub fn contains(&self, obj: &WorldObject, pos: WorldPoint) -> (inside: bool)
        ensures
            inside == self.spec_contains(*obj, pos),
    {
        match self {
            Shape::Sphere(s) => s.contains(obj, pos),
            Shape::Plane(p) => p.contains(obj, pos),
        }
    }
}

/// Of a coordinate `m` of an offset that is `dist` raw units back along a
/// direction with the coordinate `d`: its product with `d`, and its square,
/// in terms of the square of `d`.
proof fn lemma_aligned_coordinate(d: int, m: int, dist: int)
    requires
        m * 65536 == -dist * d,
    ensures
        (d * m) * 65536 == -(dist * (d * d)),
        (m * m) * 4294967296 == (dist * dist) * (d * d),
{
    let k = m * 65536;
    assert((d * m) * 65536 == d * k) by (nonlinear_arith)
        requires
            k == m * 65536,
    ;
    assert(d * k == -(dist * (d * d))) by (nonlinear_arith)
        requires
            k == -dist * d,
    ;
    assert((m * m) * 4294967296 == k * k) by (nonlinear_arith)
        requires
            k == m * 65536,
    ;
    assert(k * k == (dist * dist) * (d * d)) by (nonlinear_arith)
        requires
            k == -dist * d,
    ;
}

/// A ray from outside along the line through the centre of a sphere enters
/// it at the distance to the centre less the radius. The direction is one
/// of length exactly one, and the origin lies `dist` raw units back along it
/// from the centre, farther than the radius.
pub proof fn lemma_ray_at_centre_enters_sphere(
    sphere: Sphere,
    obj: WorldObject,
    pos: WorldPoint,
    dir: WorldVec,
    dist: int,
)
    requires
        sphere.radius.raw >= 0,
        dist > sphere.radius.raw,
        ({
            let d = dir.spec_normalize();
            &&& dot_raw(d, d) == ONE_RAW * ONE_RAW
            &&& (pos.x.raw - obj.position.x.raw) * ONE_RAW == -dist * d.x.raw
            &&& (pos.y.raw - obj.position.y.raw) * ONE_RAW == -dist * d.y.raw
            &&& (pos.z.raw - obj.position.z.raw) * ONE_RAW == -dist * d.z.raw
        }),
    ensures
        sphere.spec_intersect(obj, pos, dir) == Some(Fixed::spec_narrow(dist - sphere.radius.raw)),
{
    let d = dir.spec_normalize();
    let one = ONE_RAW as int;
    let r = sphere.radius.raw as int;
    let (dx, dy, dz) = (d.x.raw as int, d.y.raw as int, d.z.raw as int);
    let mx = pos.x.raw - obj.position.x.raw;
    let my = pos.y.raw - obj.position.y.raw;
    let mz = pos.z.raw - obj.position.z.raw;
    let a = dot_raw(d, d);
    let b = offset_dot(d, pos, obj.position);
    let m = offset_square(pos, obj.position);
    assert(one == 65536);
    lemma_aligned_coordinate(dx, mx, dist);
    lemma_aligned_coordinate(dy, my, dist);
    lemma_aligned_coordinate(dz, mz, dist);
    let (sx, sy, sz) = (dx * dx, dy * dy, dz * dz);
    assert(dist * (sx + sy + sz) == dist * sx + dist * sy + dist * sz) by (nonlinear_arith);
    assert((dist * dist) * (sx + sy + sz) == (dist * dist) * sx + (dist * dist) * sy + (dist * dist)
        * sz) by (nonlinear_arith);
    assert(a == 4294967296);
    assert(b * 65536 == -(dist * a));
    assert(dist * a == dist * 4294967296);
    assert(b == -dist * 65536);
    assert(m * 4294967296 == (dist * dist) * a);
    assert((dist * dist) * a == (dist * dist) * 4294967296);
    assert(m == dist * dist);
    assert(b == -dist * one);
    let disc = sphere_discriminant(obj.position, sphere.radius, pos, d);
    let root = one * r;
    assert(disc == root * root) by (nonlinear_arith)
        requires
            disc == b * b - a * (m - r * r),
            b == -dist * one,
            m == dist * dist,
            a == one * one,
            root == one * r,
    ;
    assert(root >= 0 && root * root < (root + 1) * (root + 1)) by (nonlinear_arith)
        requires
            root == one * r,
            r >= 0,
            one == 65536,
    ;
    crate::fixed::lemma_int_sqrt_unique(disc, root);
    let gap = dist - r;
    assert((-b - root) * one == gap * a) by (nonlinear_arith)
        requires
            b == -dist * one,
            root == one * r,
            gap == dist - r,
            a == one * one,
    ;
    assert(gap * a >= 0) by (nonlinear_arith)
        requires
            gap > 0,
            a > 0,
    ;
    vstd::arithmetic::div_mod::lemma_div_multiples_vanish(gap, a);
    assert(gap * a == a * gap) by (nonlinear_arith);
    assert(sphere_root(-b - root, d) == gap);
}

/// A ray along a line that passes the centre of a sphere farther off than
/// the radius does not meet the sphere. The distance of the line from the
/// centre is compared as squares, both sides times the square of the
/// length of the direction, which leaves no quotient to round.
pub proof fn lemma_ray_past_sphere_misses(
    sphere: Sphere,
    obj: WorldObject,
    pos: WorldPoint,
    dir: WorldVec,
)
    requires
        ({
            let d = dir.spec_normalize();
            let b = offset_dot(d, pos, obj.position);
            dot_raw(d, d) * offset_square(pos, obj.position) - b * b > dot_raw(d, d) * (
            sphere.radius.raw * sphere.radius.raw)
        }),
    ensures
        sphere.spec_intersect(obj, pos, dir) is None,
{
    let d = dir.spec_normalize();
    let a = dot_raw(d, d);
    let b = offset_dot(d, pos, obj.position);
    let m = offset_square(pos, obj.position);
    let rr = sphere.radius.raw * sphere.radius.raw;
    assert(b * b - a * (m - rr) < 0) by (nonlinear_arith)
        requires
            a * m - b * b > a * rr,
    ;
}

/// The dot product of a direction with an offset, squared, is at most the
/// product of their squares.
pub proof fn lemma_offset_dot_bound(d: WorldVec, pos: WorldPoint, center: WorldPoint)
    ensures
        offset_dot(d, pos, center) * offset_dot(d, pos, center) <= dot_raw(d, d) * offset_square(
            pos,
            center,
        ),
{
    let (dx, dy, dz) = (d.x.raw as int, d.y.raw as int, d.z.raw as int);
    let mx = pos.x.raw - center.x.raw;
    let my = pos.y.raw - center.y.raw;
    let mz = pos.z.raw - center.z.raw;
    let a = dot_raw(d, d);
    let b = offset_dot(d, pos, center);
    let m = offset_square(pos, center);
    let (a1, a2, a3) = (dx * dx, dy * dy, dz * dz);
    let (m1, m2, m3) = (mx * mx, my * my, mz * mz);
    let (p1, p2, p3) = (dx * mx, dy * my, dz * mz);
    let u = dx * my - dy * mx;
    let v = dx * mz - dz * mx;
    let w = dy * mz - dz * my;
    assert((a1 + a2 + a3) * (m1 + m2 + m3) == a1 * m1 + a1 * m2 + a1 * m3 + a2 * m1 + a2 * m2 + a2
        * m3 + a3 * m1 + a3 * m2 + a3 * m3) by (nonlinear_arith);
    assert((p1 + p2 + p3) * (p1 + p2 + p3) == p1 * p1 + p2 * p2 + p3 * p3 + 2 * (p1 * p2) + 2 * (p1
        * p3) + 2 * (p2 * p3)) by (nonlinear_arith);
    lemma_square_of_product(dx, mx);
    lemma_square_of_product(dy, my);
    lemma_square_of_product(dz, mz);
    lemma_cross_square(dx, mx, dy, my);
    lemma_cross_square(dx, mx, dz, mz);
    lemma_cross_square(dy, my, dz, mz);
    assert(a * m - b * b == u * u + v * v + w * w);
    assert(u * u >= 0 && v * v >= 0 && w * w >= 0) by (nonlinear_arith);
}

/// The square of a product is the product of the squares.
proof fn lemma_square_of_product(d: int, m: int)
    ensures
        (d * m) * (d * m) == (d * d) * (m * m),
{
    assert((d * m) * (d * m) == (d * d) * (m * m)) by (nonlinear_arith);
}

/// The square of one coordinate of a cross product, multiplied out.
proof fn lemma_cross_square(d1: int, m1: int, d2: int, m2: int)
    ensures
        (d1 * m2 - d2 * m1) * (d1 * m2 - d2 * m1) == (d1 * d1) * (m2 * m2) - 2 * ((d1 * m1) * (d2
            * m2)) + (d2 * d2) * (m1 * m1),
{
    let x = d1 * m2;
    let y = d2 * m1;
    assert((x - y) * (x - y) == x * x - 2 * (x * y) + y * y) by (nonlinear_arith);
    lemma_square_of_product(d1, m2);
    lemma_square_of_product(d2, m1);
    assert(x * y == (d1 * m1) * (d2 * m2)) by (nonlinear_arith)
        requires
            x == d1 * m2,
            y == d2 * m1,
    ;
}

/// A ray that starts inside a sphere meets it once at most, where it leaves:
/// the smaller root of the sphere's equation is not positive, and the
/// larger one, which is not negative, is the distance given where it is at
/// least one raw unit.
pub proof fn lemma_ray_from_inside_sphere(
    sphere: Sphere,
    obj: WorldObject,
    pos: WorldPoint,
    dir: WorldVec,
)
    requires
        offset_square(pos, obj.position) < sphere.radius.raw * sphere.radius.raw,
        dot_raw(dir.spec_normalize(), dir.spec_normalize()) > 0,
    ensures
        ({
            let d = dir.spec_normalize();
            let b = offset_dot(d, pos, obj.position);
            let disc = sphere_discriminant(obj.position, sphere.radius, pos, d);
            let near = sphere_root(-b - int_sqrt(disc), d);
            let far = sphere_root(-b + int_sqrt(disc), d);
            &&& disc >= 0
            &&& near <= 0
            &&& far >= 0
            &&& sphere.spec_intersect(obj, pos, dir) == if far > 0 {
                Some(Fixed::spec_narrow(far))
            } else {
                None
            }
        }),
{
    let d = dir.spec_normalize();
    let a = dot_raw(d, d);
    let b = offset_dot(d, pos, obj.position);
    let m = offset_square(pos, obj.position);
    let rr = sphere.radius.raw * sphere.radius.raw;
    let disc = sphere_discriminant(obj.position, sphere.radius, pos, d);
    assert(disc >= b * b && b * b >= 0) by (nonlinear_arith)
        requires
            disc == b * b - a * (m - rr),
            a > 0,
            m < rr,
    ;
    let s = int_sqrt(disc);
    let mag = if b >= 0 { b } else { -b };
    assert(mag * mag == b * b) by (nonlinear_arith)
        requires
            mag == b || mag == -b,
    ;
    crate::fixed::lemma_int_sqrt_bounds_root(mag, disc);
    let low = (-b - s) * ONE_RAW;
    let high = (-b + s) * ONE_RAW;
    assert(low <= 0 && high >= 0);
    if low < 0 {
        vstd::arithmetic::div_mod::lemma_div_pos_is_pos(-low, a);
    } else {
        vstd::arithmetic::div_mod::lemma_div_pos_is_pos(low, a);
    }
    vstd::arithmetic::div_mod::lemma_div_pos_is_pos(high, a);
}

/// A ray that starts inside a sphere, three raw units or more from its
/// surface, meets it exactly once, whichever way it goes: where it leaves.
/// The smaller root of the sphere's equation is not positive and the larger
/// one is at least one raw unit. The direction is to be at least one raw
/// unit long.
pub proof fn lemma_ray_from_within_sphere_leaves_it(
    sphere: Sphere,
    obj: WorldObject,
    pos: WorldPoint,
    dir: WorldVec,
)
    requires
        sphere.radius.raw >= 3,
        offset_square(pos, obj.position) <= (sphere.radius.raw - 3) * (sphere.radius.raw - 3),
        crate::vector::length_raw(dir) > 0,
    ensures
        ({
            let d = dir.spec_normalize();
            let b = offset_dot(d, pos, obj.position);
            let disc = sphere_discriminant(obj.position, sphere.radius, pos, d);
            let near = sphere_root(-b - int_sqrt(disc), d);
            let far = sphere_root(-b + int_sqrt(disc), d);
            &&& near <= 0
            &&& far > 0
            &&& sphere.spec_intersect(obj, pos, dir) == Some(Fixed::spec_narrow(far))
        }),
{
    let d = dir.spec_normalize();
    let r = sphere.radius.raw as int;
    let a = dot_raw(d, d);
    let b = offset_dot(d, pos, obj.position);
    let m = offset_square(pos, obj.position);
    let disc = sphere_discriminant(obj.position, sphere.radius, pos, d);
    let s = int_sqrt(disc);
    crate::vector::lemma_normalize_in_unit_box(dir);
    crate::vector::lemma_normalize_is_long(dir);
    lemma_product_bound(d.x.raw as int, d.x.raw as int, 65536, 65536);
    lemma_product_bound(d.y.raw as int, d.y.raw as int, 65536, 65536);
    lemma_product_bound(d.z.raw as int, d.z.raw as int, 65536, 65536);
    assert(0x4000_0000 <= a <= 12884901888);
    let inner = r - 3;
    assert(r * r - inner * inner == 6 * r - 9) by (nonlinear_arith)
        requires
            inner == r - 3,
    ;
    assert(m < r * r);
    lemma_ray_from_inside_sphere(sphere, obj, pos, dir);
    lemma_offset_dot_bound(d, pos, obj.position);
    // The part of the root that lies above `b` is at least `q`, the least
    // whole number of raw units that `a` does not exceed.
    let q = a / 65536 + 1;
    assert(a < 65536 * q <= a + 65536);
    let mx = pos.x.raw - obj.position.x.raw;
    let my = pos.y.raw - obj.position.y.raw;
    let mz = pos.z.raw - obj.position.z.raw;
    assert(mx * mx >= 0 && my * my >= 0 && mz * mz >= 0) by (nonlinear_arith);
    lemma_root_above(a, b, m, r, q);
    crate::fixed::lemma_int_sqrt(disc);
    if b + q > 0 {
        assert((b + q) * (b + q) == b * b + 2 * (b * q) + q * q) by (nonlinear_arith);
        assert(disc == b * b + a * (r * r - m)) by (nonlinear_arith)
            requires
                disc == b * b - a * (m - r * r),
        ;
        crate::fixed::lemma_int_sqrt_bounds_root(b + q, disc);
    }
    assert(s >= b + q);
    let top = (-b + s) * ONE_RAW;
    assert(top >= a);
    vstd::arithmetic::div_mod::lemma_div_is_ordered(a, top, a);
    vstd::arithmetic::div_mod::lemma_div_by_self(a);
    assert(top / a >= 1);
}

/// With `m` at most the square of `r - 3`, the square of `b` at most `a`
/// times `m`, and `q` just above `a / 65536`: twice `b` times `q`, and the
/// square of `q`, fit under `a` times what `r * r` has over `m`.
proof fn lemma_root_above(a: int, b: int, m: int, r: int, q: int)
    requires
        0x4000_0000 <= a <= 12884901888,
        r >= 3,
        0 <= m <= (r - 3) * (r - 3),
        b * b <= a * m,
        a < 65536 * q <= a + 65536,
    ensures
        2 * (b * q) + q * q <= a * (r * r - m),
{
    let inner = r - 3;
    assert(r * r - inner * inner == 6 * r - 9) by (nonlinear_arith)
        requires
            inner == r - 3,
    ;
    // `b` is at most 113512 times `inner`: 113512 squared exceeds `a`.
    assert(a * m <= 12884974144 * (inner * inner)) by (nonlinear_arith)
        requires
            0 <= a <= 12884901888,
            0 <= m <= inner * inner,
    ;
    let bound = 113512 * inner;
    assert(bound * bound == 12884974144 * (inner * inner)) by (nonlinear_arith)
        requires
            bound == 113512 * inner,
    ;
    assert(b <= bound) by (nonlinear_arith)
        requires
            b * b <= bound * bound,
            bound >= 0,
    ;
    assert(113512 * q <= 3 * a);
    assert(196609 * q <= 9 * a);
    assert(0 < q <= 196609);
    assert(q * q <= 196609 * q) by (nonlinear_arith)
        requires
            0 < q <= 196609,
    ;
    assert(b * q <= bound * q) by (nonlinear_arith)
        requires
            b <= bound,
            q > 0,
    ;
    assert(bound * q == (113512 * q) * inner) by (nonlinear_arith)
        requires
            bound == 113512 * inner,
    ;
    assert((113512 * q) * inner <= (3 * a) * inner) by (nonlinear_arith)
        requires
            113512 * q <= 3 * a,
            inner >= 0,
    ;
    assert(a * (r * r - m) >= a * (6 * r - 9)) by (nonlinear_arith)
        requires
            a >= 0,
            r * r - m >= 6 * r - 9,
    ;
    assert(a * (6 * r - 9) == 2 * ((3 * a) * inner) + 9 * a) by (nonlinear_arith)
        requires
            inner == r - 3,
    ;
}

} // verus!
