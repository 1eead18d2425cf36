//! The view into a scene: the ray through a point of the picture, and the
//! colour seen along it.

use vstd::prelude::*;
use crate::colour::Colour;
use crate::fixed::{Fixed, ONE_RAW, quotient};
use crate::shading::{cast_ray, ray_outcome};
use crate::vector::{WorldPoint, WorldVec};
use crate::world::WorldObject;

verus! {

/// Where the camera stands: five to the back of the origin along x.
pub open spec fn camera_position() -> WorldPoint {
    WorldPoint { x: Fixed::spec_from_int(-5), y: Fixed { raw: 0 }, z: Fixed { raw: 0 } }
}

/// The height of a picture over its width, and zero for a picture without
/// width.
pub open spec fn aspect(width: u32, height: u32) -> Fixed {
    if width == 0 {
        Fixed { raw: 0 }
    } else {
        Fixed::spec_narrow(quotient(height as int * ONE_RAW, width as int))
    }
}

/// The direction, at length one, from the camera through the point of the
/// picture that lies `x` of its width to the right of the middle and `y` of
/// its height below it. The camera looks along x, z is to its right, and the
/// picture stands one in front of it, one wide.
pub open spec fn pixel_ray(x: Fixed, y: Fixed, width: u32, height: u32) -> WorldVec {
    WorldPoint {
        x: Fixed { raw: ONE_RAW },
        y: Fixed { raw: 0 }.spec_saturating_sub(y.spec_saturating_mul(aspect(width, height))),
        z: x,
    }.spec_normalize()
}

/// The height of a picture over its width.
fn aspect_of(width: u32, height: u32) -> (a: Fixed)
    ensures
        a == aspect(width, height),
{
    if width == 0 {
        Fixed { raw: 0 }
    } else {
        Fixed::narrow((height as i128) * 65536 / (width as i128))
    }
}

/// The colour seen from `origin` along `direction`, which is to be of length
/// one, in the scene `world`.
pub fn render_pixel(
    origin: WorldPoint,
    direction: WorldVec,
    world: &Vec<WorldObject>,
    rng: &mut rand::StdRng,
) -> (c: Colour)
    ensures
        ray_outcome(world@, origin, direction, 0, c),
{
    cast_ray(origin, direction, 0, world, rng)
}

/// The colour of the point of a picture of `width` by `height` points that
/// lies `x` of the width to the right of the middle and `y` of the height
/// below it.
pub fn get_pixel(
    x: Fixed,
    y: Fixed,
    width: u32,
    height: u32,
    world: &Vec<WorldObject>,
    rng: &mut rand::StdRng,
) -> (c: Colour)
    ensures
        ray_outcome(world@, camera_position(), pixel_ray(x, y, width, height), 0, c),
{
    let ray = WorldPoint {
        x: Fixed { raw: 65536 },
        y: Fixed { raw: 0 }.saturating_sub(y.saturating_mul(aspect_of(width, height))),
        z: x,
    }.normalize();
    let camera = WorldPoint {
        x: Fixed { raw: -327680 },
        y: Fixed { raw: 0 },
        z: Fixed { raw: 0 },
    };
    cast_ray(camera, ray, 0, world, rng)
}

} // verus!
