//! The objects of a scene, and the search for the one that a ray meets
//! first.

use vstd::prelude::*;
use crate::fixed::Fixed;
use crate::material::Material;
use crate::shape::Shape;
use crate::vector::{WorldPoint, WorldVec};

verus! {

/// A shape with a place, a material, and a mark that says whether it gives
/// light. A scene is a sequence of objects; an object is known by its index
/// in it.
#[derive(Debug)]
pub struct WorldObject {
    pub position: WorldPoint,
    pub shape: Shape,
    pub material: Material,
    pub light: bool,
}

impl WorldObject {
    pub open spec fn spec_intersect(self, pos: WorldPoint, dir: WorldVec) -> Option<Fixed> {
        self.shape.spec_intersect(self, pos, dir)
    }

    pub open spec fn spec_normal(self, pos: WorldPoint) -> WorldVec {
        self.shape.spec_normal(self, pos)
    }

    pub open spec fn spec_contains(self, pos: WorldPoint) -> bool {
        self.shape.spec_contains(self, pos)
    }

    /// `incident` mirrored at the surface at `at`.
    pub open spec fn spec_reflect_ray(self, at: WorldPoint, incident: WorldVec) -> WorldVec {
        incident.spec_reflect(self.spec_normal(at))
    }

    /// The distance, greater than zero, at which the ray from `pos` along
    /// `dir` first meets the object.
    pub fn intersect(&self, pos: WorldPoint, dir: WorldVec) -> (t: Option<Fixed>)
        ensures
            t == self.spec_intersect(pos, dir),
            t is Some ==> t->0.raw > 0,
    {
        self.shape.intersect(self, pos, dir)
    }

    /// The direction, of length one, in which the surface faces at `pos`.
    pub fn normal(&self, pos: WorldPoint) -> (n: WorldVec)
        ensures
            n == self.spec_normal(pos),
    {
        self.shape.normal(self, pos)
    }

    /// Whether `pos` belongs to the object.
    pub fn contains(&self, pos: WorldPoint) -> (inside: bool)
        ensures
            inside == self.spec_contains(pos),
    {
        self.shape.contains(self, pos)
    }

    /// `incident` mirrored at the surface at `at`:
    /// `incident - normal * 2 * (incident . normal)`.
    pub fn reflect_ray(&self, at: WorldPoint, incident: WorldVec) -> (v: WorldVec)
        ensures
            v == self.spec_reflect_ray(at, incident),
    {
        let norm = self.normal(at);
        incident.reflect(norm)
    }
}

/// The nearest meeting of the ray with one of the first `n` objects: the
/// index of the object and the distance. Of two objects at the same
/// distance the earlier one stays.
pub open spec fn nearest_among(
    world: Seq<WorldObject>,
    pos: WorldPoint,
    dir: WorldVec,
    n: nat,
) -> Option<(usize, Fixed)>
    decreases n,
{
    if n == 0 {
        None
    } else {
        let before = nearest_among(world, pos, dir, (n - 1) as nat);
        match world[n - 1].spec_intersect(pos, dir) {
            Some(t) => if before is None || t.raw < (before->0).1.raw {
                Some(((n - 1) as usize, t))
            } else {
                before
            },
            None => before,
        }
    }
}

/// The nearest meeting of the ray with an object of the scene.
pub open spec fn nearest(world: Seq<WorldObject>, pos: WorldPoint, dir: WorldVec) -> Option<
    (usize, Fixed),
> {
    nearest_among(world, pos, dir, world.len())
}

/// What `nearest_among` names is the first of the nearest objects: it is met
/// at the distance given, no object among the first `n` is met nearer, and
/// none before it as near. It names nothing only where the ray meets none
/// of them.
pub proof fn lemma_nearest_among(world: Seq<WorldObject>, pos: WorldPoint, dir: WorldVec, n: nat)
    requires
        n <= world.len(),
        n <= usize::MAX,
    ensures
        match nearest_among(world, pos, dir, n) {
            Some((i, t)) => {
                &&& i < n
                &&& world[i as int].spec_intersect(pos, dir) == Some(t)
                &&& forall|j: int|
                    0 <= j < n ==> match #[trigger] world[j].spec_intersect(pos, dir) {
                        Some(u) => t.raw <= u.raw && (j < i ==> t.raw < u.raw),
                        None => true,
                    }
            },
            None => forall|j: int| 0 <= j < n ==> #[trigger] world[j].spec_intersect(pos, dir) is None,
        },
    decreases n,
{
    if n > 0 {
        lemma_nearest_among(world, pos, dir, (n - 1) as nat);
    }
}

/// The object that the ray from `pos` along `dir` meets first, by its index
/// in `world`, and the distance to it. Of two objects at the same distance
/// the earlier one is given.
pub fn trace(pos: WorldPoint, dir: WorldVec, world: &Vec<WorldObject>) -> (hit: Option<(usize, Fixed)>)
    ensures
        hit == nearest(world@, pos, dir),
        match hit {
            Some((i, t)) => {
                &&& i < world.len()
                &&& t.raw > 0
                &&& world[i as int].spec_intersect(pos, dir) == Some(t)
                &&& forall|j: int|
                    0 <= j < world.len() ==> match #[trigger] world[j].spec_intersect(pos, dir) {
                        Some(u) => t.raw <= u.raw && (j < i ==> t.raw < u.raw),
                        None => true,
                    }
            },
            None => forall|j: int|
                0 <= j < world.len() ==> #[trigger] world[j].spec_intersect(pos, dir) is None,
        },
{
    let mut result: Option<(usize, Fixed)> = None;
    let mut i: usize = 0;
    while i < world.len()
        invariant
            i <= world.len(),
            result == nearest_among(world@, pos, dir, i as nat),
            result is Some ==> (result->0).1.raw > 0,
        decreases world.len() - i,
    {
        match world[i].intersect(pos, dir) {
            Some(t) => {
                let nearer = match result {
                    Some((_, best)) => t.raw < best.raw,
                    None => true,
                };
                if nearer {
                    result = Some((i, t));
                }
            },
            None => {},
        }
        i += 1;
    }
    proof {
        lemma_nearest_among(world@, pos, dir, world.len() as nat);
    }
    result
}

} // verus!
