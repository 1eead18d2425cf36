//! The colour seen along a ray: the nearest object, its material, the light
//! that reaches it, and what it mirrors.
//!
//! A rough mirror looks along directions that are drawn at random, so the
//! colour of a ray is not a function of the scene. What can be seen is
//! stated as a relation between the ray and a colour; every colour that the
//! functions here return is one that the relation allows.

use vstd::prelude::*;
use crate::colour::{Colour, clamp_byte, to_byte};
use crate::fixed::{Fixed, ONE_RAW, quotient, rounded_quotient};
use crate::material::{LitMaterial, Material, ReflectMaterial};
use crate::vector::{WorldPoint, WorldVec};
use crate::world::{WorldObject, nearest, trace};

verus! {

/// The deepest nesting at which a material that looks further still does
/// so; deeper, it is black.
pub const MAX_DEPTH: u8 = 3;

/// How far a ray is moved along its direction before it is followed, so
/// that it does not meet the surface it leaves: a hundredth.
pub const EPSILON_RAW: i32 = 655;

/// The least raw value drawn for one coordinate of a jitter: a
/// ten-thousandth.
pub const JITTER_LOW_RAW: i32 = 7;

/// The raw value that a coordinate of a jitter stays below: a thousandth.
pub const JITTER_HIGH_RAW: i32 = 66;

#[verifier::external_type_specification]
#[verifier::external_body]
pub struct ExStdRng(rand::StdRng);

/// One value from `rand::distributions::Range::new(low, high)`, sampled
/// with `ind_sample` from `rng`. `Range::new` panics unless `low < high`;
/// for the integer types the sample lies in `[low, high)`. Nothing else is
/// claimed of it.
#[verifier::external_body]
fn sample_range(rng: &mut rand::StdRng, low: i32, high: i32) -> (r: i32)
    requires
        low < high,
    ensures
        low <= r < high,
{
    rand::distributions::IndependentSample::ind_sample(
        &rand::distributions::Range::new(low, high),
        rng,
    )
}

/// Where a ray from `from` along `ray` starts to be followed.
pub open spec fn ray_start(from: WorldPoint, ray: WorldVec) -> WorldPoint {
    from.spec_plus(ray.spec_scaled(Fixed { raw: EPSILON_RAW }))
}

/// How many levels are left at `depth` before the materials that look
/// further turn black.
pub open spec fn budget(depth: nat) -> nat {
    if depth > MAX_DEPTH {
        0
    } else {
        (MAX_DEPTH + 1 - depth) as nat
    }
}

/// How many directions a mirror of the given roughness looks along: the
/// whole part of the roughness, at least one and at most five.
pub open spec fn sample_count(roughness: Fixed) -> nat {
    if roughness.raw < 2 * ONE_RAW {
        1
    } else if roughness.raw >= 5 * ONE_RAW {
        5
    } else {
        (roughness.raw / ONE_RAW) as nat
    }
}

/// Whether `draw` can be drawn as a jitter: each coordinate from a
/// ten-thousandth up to, not including, a thousandth.
pub open spec fn is_jitter(draw: WorldVec) -> bool {
    &&& JITTER_LOW_RAW <= draw.x.raw < JITTER_HIGH_RAW
    &&& JITTER_LOW_RAW <= draw.y.raw < JITTER_HIGH_RAW
    &&& JITTER_LOW_RAW <= draw.z.raw < JITTER_HIGH_RAW
}

/// The direction looked along for one draw: `ray` moved by the draw times
/// the roughness, at length one.
pub open spec fn spec_jittered(ray: WorldVec, draw: WorldVec, roughness: Fixed) -> WorldVec {
    ray.spec_plus(draw.spec_scaled(roughness)).spec_normalize()
}

/// One channel of a colour: 0 for red, 1 for green, else blue.
pub open spec fn channel(c: Colour, k: int) -> int {
    if k == 0 {
        c.r as int
    } else if k == 1 {
        c.g as int
    } else {
        c.b as int
    }
}

/// The sum of channel `k` over the first `n` colours.
pub open spec fn channel_sum(colours: Seq<Colour>, k: int, n: nat) -> int
    decreases n,
{
    if n == 0 {
        0
    } else {
        channel_sum(colours, k, (n - 1) as nat) + channel(colours[n - 1], k)
    }
}

/// The mean of the colours, each channel rounded to the nearest byte.
pub open spec fn mean_colour(colours: Seq<Colour>) -> Colour {
    let n = colours.len();
    Colour {
        r: clamp_byte(rounded_quotient(channel_sum(colours, 0, n), n as int)),
        g: clamp_byte(rounded_quotient(channel_sum(colours, 1, n), n as int)),
        b: clamp_byte(rounded_quotient(channel_sum(colours, 2, n), n as int)),
    }
}

/// The direction from `at` to the place of object `i`, at length one.
pub open spec fn light_ray(world: Seq<WorldObject>, at: WorldPoint, i: int) -> WorldVec {
    world[i].position.spec_minus(at).spec_normalize()
}

/// Whether object `i` lights the point `at` of object `obj`: it is marked
/// as a light, it is not `obj` itself, and it is the first object that the
/// ray from `at` toward it meets.
pub open spec fn lit_by(world: Seq<WorldObject>, obj: int, at: WorldPoint, i: int) -> bool {
    let ray = light_ray(world, at, i);
    &&& world[i].light
    &&& i != obj
    &&& match nearest(world, ray_start(at, ray), ray) {
        Some((j, _)) => j == i,
        None => false,
    }
}

/// The point of light `i` that is seen from `at`.
pub open spec fn light_point(world: Seq<WorldObject>, at: WorldPoint, i: int) -> WorldPoint {
    let ray = light_ray(world, at, i);
    match nearest(world, ray_start(at, ray), ray) {
        Some((_, t)) => at.spec_plus(ray.spec_scaled(t)),
        None => at,
    }
}

/// How much of the light of object `i` the surface of `obj` takes at `at`:
/// the cosine between the normal and the direction to the light, from zero
/// to one, in raw units; nothing where the light does not reach.
pub open spec fn diffuse_weight(world: Seq<WorldObject>, obj: int, at: WorldPoint, i: int) -> int {
    if lit_by(world, obj, at, i) {
        light_ray(world, at, i).spec_dot(world[obj].spec_normal(at)).spec_clamp_unit().raw as int
    } else {
        0
    }
}

/// How much of the light of object `i` shines back along the mirrored
/// incident ray: the cosine between that ray and the direction to the
/// light, from zero to one, raised to `shininess`, in raw units; nothing
/// where the light does not reach.
pub open spec fn specular_weight(
    world: Seq<WorldObject>,
    obj: int,
    at: WorldPoint,
    incident: WorldVec,
    shininess: u32,
    i: int,
) -> int {
    if lit_by(world, obj, at, i) {
        light_ray(world, at, i).spec_dot(
            world[obj].spec_reflect_ray(at, incident),
        ).spec_clamp_unit().spec_powi(shininess as nat).raw as int
    } else {
        0
    }
}

/// Channel `k` of the light taken from the first `n` objects, in raw units.
pub open spec fn diffuse_sum(
    world: Seq<WorldObject>,
    obj: int,
    at: WorldPoint,
    lights: Seq<Colour>,
    k: int,
    n: nat,
) -> int
    decreases n,
{
    if n == 0 {
        0
    } else {
        diffuse_sum(world, obj, at, lights, k, (n - 1) as nat) + channel(lights[n - 1], k)
            * diffuse_weight(world, obj, at, n - 1)
    }
}

/// Channel `k` of the highlights from the first `n` objects, in raw units.
pub open spec fn specular_sum(
    world: Seq<WorldObject>,
    obj: int,
    at: WorldPoint,
    incident: WorldVec,
    shininess: u32,
    lights: Seq<Colour>,
    k: int,
    n: nat,
) -> int
    decreases n,
{
    if n == 0 {
        0
    } else {
        specular_sum(world, obj, at, incident, shininess, lights, k, (n - 1) as nat) + channel(
            lights[n - 1],
            k,
        ) * specular_weight(world, obj, at, incident, shininess, n - 1)
    }
}

/// One channel of a lit surface: what it emits, plus the highlights times
/// `specular_amount`, plus the share `base / 255` of the light it takes,
/// rounded to the nearest byte. `specular` and `diffuse` are in raw units.
pub open spec fn lit_channel(
    emitted: int,
    base: int,
    specular_amount: Fixed,
    specular: int,
    diffuse: int,
) -> u8 {
    clamp_byte(
        rounded_quotient(
            emitted * ONE_RAW * ONE_RAW + specular_amount.raw * specular + quotient(
                base * diffuse,
                255,
            ) * ONE_RAW,
            ONE_RAW as int * ONE_RAW as int,
        ),
    )
}

/// One channel of a tinted mirror: the share `base / 255` of what is
/// mirrored, rounded to the nearest byte.
pub open spec fn tint_channel(mirrored: int, base: int) -> u8 {
    clamp_byte(rounded_quotient(mirrored * base, 255))
}

impl LitMaterial {
    /// Channel `k` of the light that the surface takes: from the lights, and
    /// where it mirrors, `reflectivity` times what it mirrors.
    pub open spec fn taken(
        self,
        world: Seq<WorldObject>,
        obj: int,
        at: WorldPoint,
        lights: Seq<Colour>,
        mirrored: Colour,
        k: int,
    ) -> int {
        diffuse_sum(world, obj, at, lights, k, world.len()) + if self.reflectivity.raw > 0 {
            channel(mirrored, k) * self.reflectivity.raw
        } else {
            0
        }
    }

    /// The colour of the surface, given what it emits, its own colour
    /// `base`, the colour seen of each light, and what it mirrors.
    pub open spec fn composite(
        self,
        world: Seq<WorldObject>,
        obj: int,
        at: WorldPoint,
        incident: WorldVec,
        emitted: Colour,
        base: Colour,
        lights: Seq<Colour>,
        mirrored: Colour,
    ) -> Colour {
        Colour {
            r: lit_channel(
                emitted.r as int,
                base.r as int,
                self.specular_amount,
                specular_sum(world, obj, at, incident, self.shininess, lights, 0, world.len()),
                self.taken(world, obj, at, lights, mirrored, 0),
            ),
            g: lit_channel(
                emitted.g as int,
                base.g as int,
                self.specular_amount,
                specular_sum(world, obj, at, incident, self.shininess, lights, 1, world.len()),
                self.taken(world, obj, at, lights, mirrored, 1),
            ),
            b: lit_channel(
                emitted.b as int,
                base.b as int,
                self.specular_amount,
                specular_sum(world, obj, at, incident, self.shininess, lights, 2, world.len()),
                self.taken(world, obj, at, lights, mirrored, 2),
            ),
        }
    }
}

/// The colour of a mirror that shows `mirrored`, tinted by `base`.
pub open spec fn tint(mirrored: Colour, base: Colour) -> Colour {
    Colour {
        r: tint_channel(mirrored.r as int, base.r as int),
        g: tint_channel(mirrored.g as int, base.g as int),
        b: tint_channel(mirrored.b as int, base.b as int),
    }
}

/// Whether `c` can be the colour of the material `m` on object `obj` at the
/// point `at`, reached along `incident`, at the given depth.
pub open spec fn shade_outcome(
    world: Seq<WorldObject>,
    m: Material,
    obj: int,
    at: WorldPoint,
    incident: WorldVec,
    depth: nat,
    c: Colour,
) -> bool
    decreases budget(depth), 1nat,
{
    match m {
        Material::Flat(f) => c == f.colour,
        Material::Checkerboard(k) => c == k.spec_colour(at),
        Material::Gradient(g) => c == g.spec_colour(at),
        Material::Reflect(r) => mirror_outcome(world, r, obj, at, incident, depth, c),
        Material::Lit(l) => lit_outcome(world, l, obj, at, incident, depth, c),
    }
}

/// Whether `c` can be the colour of a tinted mirror: black beyond the
/// deepest level; else the tint, by a colour of its base one level deeper,
/// of a colour seen along the mirrored ray one level deeper.
pub open spec fn mirror_outcome(
    world: Seq<WorldObject>,
    r: ReflectMaterial,
    obj: int,
    at: WorldPoint,
    incident: WorldVec,
    depth: nat,
    c: Colour,
) -> bool
    decreases budget(depth), 0nat,
{
    if depth > MAX_DEPTH {
        c == Colour::spec_black()
    } else {
        exists|base: Colour, mirrored: Colour|
            {
                &&& shade_outcome(world, *r.base, obj, at, incident, depth + 1, base)
                &&& rays_outcome(
                    world,
                    at,
                    world[obj].spec_reflect_ray(at, incident),
                    depth + 1,
                    r.smoothness,
                    mirrored,
                )
                &&& c == #[trigger] tint(mirrored, base)
            }
    }
}

/// Whether `lights` holds, for each object that lights the point, a colour
/// that its material can have where it is seen from `at`.
pub open spec fn lights_outcome(
    world: Seq<WorldObject>,
    obj: int,
    at: WorldPoint,
    depth: nat,
    lights: Seq<Colour>,
    n: nat,
) -> bool
    decreases budget(depth), 2nat, n,
{
    if n == 0 {
        true
    } else {
        &&& lights_outcome(world, obj, at, depth, lights, (n - 1) as nat)
        &&& lit_by(world, obj, at, n - 1) ==> shade_outcome(
            world,
            world[n - 1].material,
            n - 1,
            light_point(world, at, n - 1),
            light_ray(world, at, n - 1),
            depth,
            lights[n - 1],
        )
    }
}

/// Whether `c` can be the colour of a lit surface: black beyond the deepest
/// level; else the composite of a colour of what it emits, a colour of its
/// own, a colour of each light that reaches the point, and, where it
/// mirrors, a colour seen along the mirrored ray, all one level deeper.
pub open spec fn lit_outcome(
    world: Seq<WorldObject>,
    l: LitMaterial,
    obj: int,
    at: WorldPoint,
    incident: WorldVec,
    depth: nat,
    c: Colour,
) -> bool
    decreases budget(depth), 0nat,
{
    if depth > MAX_DEPTH {
        c == Colour::spec_black()
    } else {
        exists|emitted: Colour, base: Colour, lights: Seq<Colour>, mirrored: Colour|
            {
                &&& shade_outcome(world, *l.emit, obj, at, incident, depth + 1, emitted)
                &&& shade_outcome(world, *l.absorb, obj, at, incident, depth + 1, base)
                &&& lights.len() == world.len()
                &&& lights_outcome(world, obj, at, depth + 1, lights, world.len())
                &&& l.reflectivity.raw > 0 ==> rays_outcome(
                    world,
                    at,
                    world[obj].spec_reflect_ray(at, incident),
                    depth + 1,
                    l.roughness,
                    mirrored,
                )
                &&& c == #[trigger] l.composite(
                    world,
                    obj,
                    at,
                    incident,
                    emitted,
                    base,
                    lights,
                    mirrored,
                )
            }
    }
}

/// Whether `c` can be the colour seen from `from` along `ray`: black where
/// the ray meets nothing, else a colour of the material of the nearest
/// object at the point where the ray meets it. The ray is followed from
/// `ray_start(from, ray)` and the distance to the object counts from there,
/// so the point lies that distance beyond the start.
pub open spec fn ray_outcome(
    world: Seq<WorldObject>,
    from: WorldPoint,
    ray: WorldVec,
    depth: nat,
    c: Colour,
) -> bool
    decreases budget(depth), 2nat,
{
    match nearest(world, ray_start(from, ray), ray) {
        Some((i, t)) => shade_outcome(
            world,
            world[i as int].material,
            i as int,
            ray_start(from, ray).spec_plus(ray.spec_scaled(t)),
            ray,
            depth,
            c,
        ),
        None => c == Colour::spec_black(),
    }
}

/// Whether `colours` holds, for each of the first `n` draws, a colour that
/// can be seen along the direction that the draw gives.
pub open spec fn samples_outcome(
    world: Seq<WorldObject>,
    from: WorldPoint,
    ray: WorldVec,
    depth: nat,
    roughness: Fixed,
    draws: Seq<WorldVec>,
    colours: Seq<Colour>,
    n: nat,
) -> bool
    decreases budget(depth), 3nat, n,
{
    if n == 0 {
        true
    } else {
        &&& samples_outcome(world, from, ray, depth, roughness, draws, colours, (n - 1) as nat)
        &&& is_jitter(draws[n - 1])
        &&& ray_outcome(
            world,
            from,
            spec_jittered(ray, draws[n - 1], roughness),
            depth,
            colours[n - 1],
        )
    }
}

/// Whether there are as many draws, and as many colours, as a mirror of the
/// given roughness looks along directions.
pub open spec fn sampled(roughness: Fixed, draws: Seq<WorldVec>, colours: Seq<Colour>) -> bool {
    draws.len() == sample_count(roughness) && colours.len() == sample_count(roughness)
}

/// Whether `c` can be the colour seen from `from` along `ray` by a mirror of
/// the given roughness: the mean of the colours seen along as many
/// directions as the roughness asks for, each the ray moved by a jitter
/// times the roughness.
pub open spec fn rays_outcome(
    world: Seq<WorldObject>,
    from: WorldPoint,
    ray: WorldVec,
    depth: nat,
    roughness: Fixed,
    c: Colour,
) -> bool
    decreases budget(depth), 4nat,
{
    exists|draws: Seq<WorldVec>, colours: Seq<Colour>|
        {
            &&& #[trigger] sampled(roughness, draws, colours)
            &&& samples_outcome(
                world,
                from,
                ray,
                depth,
                roughness,
                draws,
                colours,
                sample_count(roughness),
            )
            &&& c == mean_colour(colours)
        }
}

/// The sums over the first `n` colours do not depend on the later ones.
pub proof fn lemma_sums_prefix(
    world: Seq<WorldObject>,
    obj: int,
    at: WorldPoint,
    incident: WorldVec,
    shininess: u32,
    a: Seq<Colour>,
    b: Seq<Colour>,
    k: int,
    n: nat,
)
    requires
        forall|j: int| 0 <= j < n ==> a[j] == b[j],
    ensures
        diffuse_sum(world, obj, at, a, k, n) == diffuse_sum(world, obj, at, b, k, n),
        specular_sum(world, obj, at, incident, shininess, a, k, n) == specular_sum(
            world,
            obj,
            at,
            incident,
            shininess,
            b,
            k,
            n,
        ),
        channel_sum(a, k, n) == channel_sum(b, k, n),
    decreases n,
{
    if n > 0 {
        lemma_sums_prefix(world, obj, at, incident, shininess, a, b, k, (n - 1) as nat);
    }
}

/// Whether the first `n` colours are colours of the lights does not depend
/// on the later ones.
pub proof fn lemma_lights_prefix(
    world: Seq<WorldObject>,
    obj: int,
    at: WorldPoint,
    depth: nat,
    a: Seq<Colour>,
    b: Seq<Colour>,
    n: nat,
)
    requires
        forall|j: int| 0 <= j < n ==> a[j] == b[j],
        lights_outcome(world, obj, at, depth, a, n),
    ensures
        lights_outcome(world, obj, at, depth, b, n),
    decreases n,
{
    if n > 0 {
        lemma_lights_prefix(world, obj, at, depth, a, b, (n - 1) as nat);
    }
}

/// Whether the first `n` colours are seen along the first `n` draws does
/// not depend on the later ones.
pub proof fn lemma_samples_prefix(
    world: Seq<WorldObject>,
    from: WorldPoint,
    ray: WorldVec,
    depth: nat,
    roughness: Fixed,
    draws: Seq<WorldVec>,
    colours: Seq<Colour>,
    draws2: Seq<WorldVec>,
    colours2: Seq<Colour>,
    n: nat,
)
    requires
        forall|j: int| 0 <= j < n ==> draws[j] == draws2[j] && colours[j] == colours2[j],
        samples_outcome(world, from, ray, depth, roughness, draws, colours, n),
    ensures
        samples_outcome(world, from, ray, depth, roughness, draws2, colours2, n),
    decreases n,
{
    if n > 0 {
        lemma_samples_prefix(
            world,
            from,
            ray,
            depth,
            roughness,
            draws,
            colours,
            draws2,
            colours2,
            (n - 1) as nat,
        );
    }
}

/// A mean of colours seen along as many jittered directions as the
/// roughness asks for is a colour that a mirror of that roughness can see.
pub proof fn lemma_rays_outcome(
    world: Seq<WorldObject>,
    from: WorldPoint,
    ray: WorldVec,
    depth: nat,
    roughness: Fixed,
    draws: Seq<WorldVec>,
    colours: Seq<Colour>,
)
    requires
        draws.len() == sample_count(roughness),
        colours.len() == sample_count(roughness),
        samples_outcome(world, from, ray, depth, roughness, draws, colours, sample_count(roughness)),
    ensures
        rays_outcome(world, from, ray, depth, roughness, mean_colour(colours)),
{
    assert(sampled(roughness, draws, colours));
}

/// Up to the deepest level, the tint by a colour of the base of a colour
/// seen along the mirrored ray, both one level deeper, is a colour of the
/// mirror.
pub proof fn lemma_mirror_outcome(
    world: Seq<WorldObject>,
    r: ReflectMaterial,
    obj: int,
    at: WorldPoint,
    incident: WorldVec,
    depth: nat,
    base: Colour,
    mirrored: Colour,
)
    requires
        depth <= MAX_DEPTH,
        shade_outcome(world, *r.base, obj, at, incident, depth + 1, base),
        rays_outcome(
            world,
            at,
            world[obj].spec_reflect_ray(at, incident),
            depth + 1,
            r.smoothness,
            mirrored,
        ),
    ensures
        mirror_outcome(world, r, obj, at, incident, depth, tint(mirrored, base)),
{
}

/// Up to the deepest level, the composite of a colour of what the surface
/// emits, a colour of its own, colours of the lights that reach the point,
/// and, where it mirrors, a colour seen along the mirrored ray, all one
/// level deeper, is a colour of the lit surface.
pub proof fn lemma_lit_outcome(
    world: Seq<WorldObject>,
    l: LitMaterial,
    obj: int,
    at: WorldPoint,
    incident: WorldVec,
    depth: nat,
    emitted: Colour,
    base: Colour,
    lights: Seq<Colour>,
    mirrored: Colour,
)
    requires
        depth <= MAX_DEPTH,
        shade_outcome(world, *l.emit, obj, at, incident, depth + 1, emitted),
        shade_outcome(world, *l.absorb, obj, at, incident, depth + 1, base),
        lights.len() == world.len(),
        lights_outcome(world, obj, at, depth + 1, lights, world.len()),
        l.reflectivity.raw > 0 ==> rays_outcome(
            world,
            at,
            world[obj].spec_reflect_ray(at, incident),
            depth + 1,
            l.roughness,
            mirrored,
        ),
    ensures
        lit_outcome(
            world,
            l,
            obj,
            at,
            incident,
            depth,
            l.composite(world, obj, at, incident, emitted, base, lights, mirrored),
        ),
{
}

/// Beyond the deepest level a lit surface and a mirror show black, whatever
/// the scene: no ray is followed from there.
pub proof fn lemma_beyond_depth_is_black(
    world: Seq<WorldObject>,
    m: Material,
    obj: int,
    at: WorldPoint,
    incident: WorldVec,
    depth: nat,
    c: Colour,
)
    requires
        depth > MAX_DEPTH,
        m is Lit || m is Reflect,
        shade_outcome(world, m, obj, at, incident, depth, c),
    ensures
        c == Colour::spec_black(),
{
}

/// No object lights itself: at a point of object `obj` the object `obj`
/// gives no light, whether it is marked as a light or not.
pub proof fn lemma_never_lights_itself(
    world: Seq<WorldObject>,
    obj: int,
    at: WorldPoint,
    incident: WorldVec,
    shininess: u32,
)
    ensures
        !lit_by(world, obj, at, obj),
        diffuse_weight(world, obj, at, obj) == 0,
        specular_weight(world, obj, at, incident, shininess, obj) == 0,
{
}

/// A light behind another object gives nothing: where the ray from `at`
/// toward light `i` meets object `j` nearer than the light, or as near and
/// `j` stands earlier in the scene, or where the ray does not meet the light
/// at all, the light does not reach the point.
pub proof fn lemma_occluded_light_is_dark(
    world: Seq<WorldObject>,
    obj: int,
    at: WorldPoint,
    i: int,
    j: int,
)
    requires
        0 <= i < world.len(),
        0 <= j < world.len(),
        world.len() <= usize::MAX,
        ({
            let ray = light_ray(world, at, i);
            let start = ray_start(at, ray);
            match world[i].spec_intersect(start, ray) {
                Some(t) => match world[j].spec_intersect(start, ray) {
                    Some(u) => u.raw < t.raw || (u.raw == t.raw && j < i),
                    None => false,
                },
                None => true,
            }
        }),
    ensures
        !lit_by(world, obj, at, i),
{
    let ray = light_ray(world, at, i);
    let start = ray_start(at, ray);
    crate::world::lemma_nearest_among(world, start, ray, world.len());
    let seen = world[i].spec_intersect(start, ray);
    let other = world[j].spec_intersect(start, ray);
}

/// A light that does not reach the point adds nothing to the light taken
/// nor to the highlights, whatever its colour.
pub proof fn lemma_dark_light_adds_nothing(
    world: Seq<WorldObject>,
    obj: int,
    at: WorldPoint,
    incident: WorldVec,
    shininess: u32,
    lights: Seq<Colour>,
    k: int,
    i: nat,
)
    requires
        !lit_by(world, obj, at, i as int),
    ensures
        diffuse_sum(world, obj, at, lights, k, i + 1) == diffuse_sum(world, obj, at, lights, k, i),
        specular_sum(world, obj, at, incident, shininess, lights, k, i + 1) == specular_sum(
            world,
            obj,
            at,
            incident,
            shininess,
            lights,
            k,
            i,
        ),
{
    assert(diffuse_weight(world, obj, at, i as int) == 0);
    assert(specular_weight(world, obj, at, incident, shininess, i as int) == 0);
    assert(channel(lights[i as int], k) * 0 == 0);
}

/// Without roughness a jitter moves nothing: the direction looked along is
/// the ray brought to length one, whatever was drawn.
pub proof fn lemma_jitter_without_roughness(ray: WorldVec, draw: WorldVec, roughness: Fixed)
    requires
        roughness.raw == 0,
    ensures
        spec_jittered(ray, draw, roughness) == ray.spec_normalize(),
{
    assert(draw.x.raw * 0 == 0 && draw.y.raw * 0 == 0 && draw.z.raw * 0 == 0);
    assert(draw.spec_scaled(roughness) == (WorldPoint {
        x: Fixed { raw: 0 },
        y: Fixed { raw: 0 },
        z: Fixed { raw: 0 },
    }));
    assert(ray.spec_plus(draw.spec_scaled(roughness)) == ray);
}

/// The mean of one colour is that colour.
pub proof fn lemma_mean_of_one(colours: Seq<Colour>)
    requires
        colours.len() == 1,
    ensures
        mean_colour(colours) == colours[0],
{
    reveal_with_fuel(channel_sum, 2);
    let one = colours[0];
    assert(channel_sum(colours, 0, 1) == one.r);
    assert(channel_sum(colours, 1, 1) == one.g);
    assert(channel_sum(colours, 2, 1) == one.b);
    vstd::arithmetic::div_mod::lemma_fundamental_div_mod_converse_div(
        2 * one.r + 1,
        2,
        one.r as int,
        1,
    );
    vstd::arithmetic::div_mod::lemma_fundamental_div_mod_converse_div(
        2 * one.g + 1,
        2,
        one.g as int,
        1,
    );
    vstd::arithmetic::div_mod::lemma_fundamental_div_mod_converse_div(
        2 * one.b + 1,
        2,
        one.b as int,
        1,
    );
    assert(rounded_quotient(one.r as int, 1) == one.r);
    assert(rounded_quotient(one.g as int, 1) == one.g);
    assert(rounded_quotient(one.b as int, 1) == one.b);
    let mean = mean_colour(colours);
    assert(mean.r == one.r && mean.g == one.g && mean.b == one.b);
}

/// What one ray along `ray` at length one sees, a mirror without roughness
/// sees along `ray`.
proof fn lemma_one_ray_is_a_smooth_mirror(
    world: Seq<WorldObject>,
    from: WorldPoint,
    ray: WorldVec,
    depth: nat,
    roughness: Fixed,
    c: Colour,
)
    requires
        roughness.raw == 0,
        ray_outcome(world, from, ray.spec_normalize(), depth, c),
    ensures
        rays_outcome(world, from, ray, depth, roughness, c),
{
    let low = Fixed { raw: JITTER_LOW_RAW };
    let draw = WorldPoint { x: low, y: low, z: low };
    let draws = seq![draw];
    let colours = seq![c];
    lemma_jitter_without_roughness(ray, draw, roughness);
    lemma_mean_of_one(colours);
    assert(sample_count(roughness) == 1);
    assert(samples_outcome(world, from, ray, depth, roughness, draws, colours, 1)) by {
        reveal_with_fuel(samples_outcome, 2);
    }
    assert(sampled(roughness, draws, colours));
}

/// What a mirror without roughness sees along `ray`, one ray along `ray` at
/// length one sees.
proof fn lemma_smooth_mirror_is_one_ray(
    world: Seq<WorldObject>,
    from: WorldPoint,
    ray: WorldVec,
    depth: nat,
    roughness: Fixed,
    c: Colour,
)
    requires
        roughness.raw == 0,
        rays_outcome(world, from, ray, depth, roughness, c),
    ensures
        ray_outcome(world, from, ray.spec_normalize(), depth, c),
{
    let (draws, colours): (Seq<WorldVec>, Seq<Colour>) = choose|
        draws: Seq<WorldVec>,
        colours: Seq<Colour>,
    |
        {
            &&& #[trigger] sampled(roughness, draws, colours)
            &&& samples_outcome(
                world,
                from,
                ray,
                depth,
                roughness,
                draws,
                colours,
                sample_count(roughness),
            )
            &&& c == mean_colour(colours)
        };
    assert(sample_count(roughness) == 1);
    lemma_jitter_without_roughness(ray, draws[0], roughness);
    lemma_mean_of_one(colours);
    assert(ray_outcome(world, from, spec_jittered(ray, draws[0], roughness), depth, colours[0])) by {
        reveal_with_fuel(samples_outcome, 2);
    }
}

/// A mirror without roughness sees what one ray sees: with a roughness of
/// zero the colours seen along `ray` are those of the single ray along
/// `ray` brought to length one.
pub proof fn lemma_smooth_mirror_sees_one_ray(
    world: Seq<WorldObject>,
    from: WorldPoint,
    ray: WorldVec,
    depth: nat,
    roughness: Fixed,
    c: Colour,
)
    requires
        roughness.raw == 0,
    ensures
        rays_outcome(world, from, ray, depth, roughness, c) <==> ray_outcome(
            world,
            from,
            ray.spec_normalize(),
            depth,
            c,
        ),
{
    if ray_outcome(world, from, ray.spec_normalize(), depth, c) {
        lemma_one_ray_is_a_smooth_mirror(world, from, ray, depth, roughness, c);
    }
    if rays_outcome(world, from, ray, depth, roughness, c) {
        lemma_smooth_mirror_is_one_ray(world, from, ray, depth, roughness, c);
    }
}

/// How many directions a mirror of the given roughness looks along.
pub fn sample_number(roughness: Fixed) -> (n: usize)
    ensures
        n == sample_count(roughness),
        1 <= n <= 5,
{
    if roughness.raw < 2 * 65536 {
        1
    } else if roughness.raw >= 5 * 65536 {
        5
    } else {
        (roughness.raw / 65536) as usize
    }
}

/// The direction that a mirror of the given roughness looks along for the
/// jitter `draw`.
pub fn jittered_direction(ray: WorldVec, draw: WorldVec, roughness: Fixed) -> (v: WorldVec)
    ensures
        v == spec_jittered(ray, draw, roughness),
{
    ray.plus(draw.scaled(roughness)).normalize()
}

/// A jitter drawn from `rng`, each coordinate on its own.
pub fn draw_jitter(rng: &mut rand::StdRng) -> (draw: WorldVec)
    ensures
        is_jitter(draw),
{
    let x: i32 = sample_range(rng, JITTER_LOW_RAW, JITTER_HIGH_RAW);
    let y: i32 = sample_range(rng, JITTER_LOW_RAW, JITTER_HIGH_RAW);
    let z: i32 = sample_range(rng, JITTER_LOW_RAW, JITTER_HIGH_RAW);
    WorldPoint { x: Fixed { raw: x }, y: Fixed { raw: y }, z: Fixed { raw: z } }
}

/// `a / b` rounded to the nearest integer, halves away from zero.
fn rounded_div(a: i128, b: i128) -> (q: i128)
    requires
        0 < b <= 0x1_0000_0000_0000_0000,
        -0x1000_0000_0000_0000_0000_0000_0000_0000 <= a <= 0x1000_0000_0000_0000_0000_0000_0000_0000,
    ensures
        q as int == rounded_quotient(a as int, b as int),
{
    if a >= 0 {
        (2 * a + b) / (2 * b)
    } else {
        -((b - 2 * a) / (2 * b))
    }
}

/// The mean of the colours.
pub fn mean_of(colours: &Vec<Colour>) -> (c: Colour)
    requires
        colours.len() > 0,
    ensures
        c == mean_colour(colours@),
{
    let mut r: i128 = 0;
    let mut g: i128 = 0;
    let mut b: i128 = 0;
    let mut k: usize = 0;
    while k < colours.len()
        invariant
            k <= colours.len(),
            r == channel_sum(colours@, 0, k as nat),
            g == channel_sum(colours@, 1, k as nat),
            b == channel_sum(colours@, 2, k as nat),
            0 <= r <= 255 * k,
            0 <= g <= 255 * k,
            0 <= b <= 255 * k,
        decreases colours.len() - k,
    {
        r = r + colours[k].r as i128;
        g = g + colours[k].g as i128;
        b = b + colours[k].b as i128;
        k += 1;
    }
    let n: i128 = colours.len() as i128;
    Colour {
        r: to_byte(rounded_div(r, n)),
        g: to_byte(rounded_div(g, n)),
        b: to_byte(rounded_div(b, n)),
    }
}

/// One channel of a lit surface.
fn lit_byte(emitted: u8, base: u8, specular_amount: Fixed, specular: i128, diffuse: i128) -> (c: u8)
    requires
        0 <= specular <= 0x200_0000_0000_0000_0000_0000,
        0 <= diffuse <= 0x200_0000_0000_0000_0000_0000,
    ensures
        c == lit_channel(emitted as int, base as int, specular_amount, specular as int, diffuse as int),
{
    proof {
        crate::fixed::lemma_product_bound(
            specular_amount.raw as int,
            specular as int,
            0x8000_0000,
            0x200_0000_0000_0000_0000_0000,
        );
        crate::fixed::lemma_product_bound(
            base as int,
            diffuse as int,
            255,
            0x200_0000_0000_0000_0000_0000,
        );
        assert(base * diffuse >= 0) by (nonlinear_arith)
            requires
                base >= 0,
                diffuse >= 0,
        ;
    }
    let e: i128 = (emitted as i128) * 65536 * 65536;
    let s: i128 = (specular_amount.raw as i128) * specular;
    let d: i128 = ((base as i128) * diffuse / 255) * 65536;
    to_byte(rounded_div(e + s + d, 0x1_0000_0000))
}

/// One channel of a tinted mirror.
fn tint_byte(mirrored: u8, base: u8) -> (c: u8)
    ensures
        c == tint_channel(mirrored as int, base as int),
{
    proof {
        crate::fixed::lemma_product_bound(mirrored as int, base as int, 255, 255);
    }
    to_byte(rounded_div((mirrored as i128) * (base as i128), 255))
}

/// The colour seen from `from` along `ray`: that of the nearest object that
/// the ray meets once it has moved a hundredth along, at the point where it
/// meets it, black where it meets none.
pub fn cast_ray(
    from: WorldPoint,
    ray: WorldVec,
    depth: u8,
    world: &Vec<WorldObject>,
    rng: &mut rand::StdRng,
) -> (c: Colour)
    ensures
        ray_outcome(world@, from, ray, depth as nat, c),
    decreases budget(depth as nat), 2nat,
{
    let start = from.plus(ray.scaled(Fixed { raw: EPSILON_RAW }));
    match trace(start, ray, world) {
        Some((i, t)) => world[i].material.colour(
            i,
            start.plus(ray.scaled(t)),
            ray,
            from,
            world,
            depth,
            rng,
        ),
        None => Colour::black(),
    }
}

/// The colour seen from `from` along `ray` by a mirror of the given
/// roughness: the mean over as many directions as the roughness asks for,
/// each the ray moved by a jitter drawn from `rng` times the roughness.
pub fn cast_rays(
    from: WorldPoint,
    ray: WorldVec,
    depth: u8,
    world: &Vec<WorldObject>,
    roughness: Fixed,
    rng: &mut rand::StdRng,
) -> (c: Colour)
    ensures
        rays_outcome(world@, from, ray, depth as nat, roughness, c),
    decreases budget(depth as nat), 4nat,
{
    let samples = sample_number(roughness);
    let mut seen: Vec<Colour> = Vec::new();
    let ghost mut draws: Seq<WorldVec> = Seq::empty();
    let mut k: usize = 0;
    while k < samples
        invariant
            k <= samples,
            samples == sample_count(roughness),
            seen.len() == k,
            draws.len() == k,
            samples_outcome(world@, from, ray, depth as nat, roughness, draws, seen@, k as nat),
        decreases samples - k,
    {
        let draw = draw_jitter(rng);
        let direction = jittered_direction(ray, draw, roughness);
        let colour = cast_ray(from, direction, depth, world, rng);
        proof {
            lemma_samples_prefix(
                world@,
                from,
                ray,
                depth as nat,
                roughness,
                draws,
                seen@,
                draws.push(draw),
                seen@.push(colour),
                k as nat,
            );
            draws = draws.push(draw);
        }
        seen.push(colour);
        k += 1;
    }
    let c = mean_of(&seen);
    proof {
        lemma_rays_outcome(world@, from, ray, depth as nat, roughness, draws, seen@);
    }
    c
}

impl ReflectMaterial {
    /// The colour of the mirror on object `obj` at `at`: black beyond the
    /// deepest level, else what is seen along the mirrored ray, tinted by
    /// the colour of the base.
    pub fn colour(
        &self,
        obj: usize,
        at: WorldPoint,
        incident: WorldVec,
        incident_from: WorldPoint,
        world: &Vec<WorldObject>,
        depth: u8,
        rng: &mut rand::StdRng,
    ) -> (c: Colour)
        requires
            obj < world.len(),
        ensures
            mirror_outcome(world@, *self, obj as int, at, incident, depth as nat, c),
        decreases budget(depth as nat), 0nat,
    {
        if depth > MAX_DEPTH {
            return Colour::black();
        }
        let base = self.base.colour(obj, at, incident, incident_from, world, depth + 1, rng);
        let mirrored = cast_rays(
            at,
            world[obj].reflect_ray(at, incident),
            depth + 1,
            world,
            self.smoothness,
            rng,
        );
        let c = Colour {
            r: tint_byte(mirrored.r, base.r),
            g: tint_byte(mirrored.g, base.g),
            b: tint_byte(mirrored.b, base.b),
        };
        proof {
            lemma_mirror_outcome(
                world@,
                *self,
                obj as int,
                at,
                incident,
                depth as nat,
                base,
                mirrored,
            );
        }
        c
    }
}

impl LitMaterial {
    /// What object `i` gives to the point `at` of object `obj`: a colour of
    /// it, where it lights the point, and the shares of that colour that the
    /// surface takes and that it shines back. `norm` is the normal at `at`
    /// and `view` the mirrored incident ray.
    fn light(
        &self,
        obj: usize,
        i: usize,
        at: WorldPoint,
        norm: WorldVec,
        view: WorldVec,
        incident: WorldVec,
        world: &Vec<WorldObject>,
        depth: u8,
        rng: &mut rand::StdRng,
    ) -> (given: (Colour, i128, i128))
        requires
            obj < world.len(),
            i < world.len(),
            norm == world[obj as int].spec_normal(at),
            view == world[obj as int].spec_reflect_ray(at, incident),
        ensures
            lit_by(world@, obj as int, at, i as int) ==> shade_outcome(
                world@,
                world[i as int].material,
                i as int,
                light_point(world@, at, i as int),
                light_ray(world@, at, i as int),
                depth as nat,
                given.0,
            ),
            given.1 == diffuse_weight(world@, obj as int, at, i as int),
            given.2 == specular_weight(
                world@,
                obj as int,
                at,
                incident,
                self.shininess,
                i as int,
            ),
            0 <= given.1 <= 65536,
            0 <= given.2 <= 65536,
        decreases budget(depth as nat), 2nat,
    {
        if !world[i].light || i == obj {
            return (Colour::black(), 0, 0);
        }
        let ray = world[i].position.minus(at).normalize();
        let start = at.plus(ray.scaled(Fixed { raw: EPSILON_RAW }));
        match trace(start, ray, world) {
            Some((j, t)) => {
                if j != i {
                    return (Colour::black(), 0, 0);
                }
                let seen = world[i].material.colour(
                    i,
                    at.plus(ray.scaled(t)),
                    ray,
                    start,
                    world,
                    depth,
                    rng,
                );
                let cosine = ray.dot(view).clamp_unit();
                proof {
                    crate::fixed::lemma_powi_unit(cosine, self.shininess as nat);
                }
                (
                    seen,
                    ray.dot(norm).clamp_unit().raw as i128,
                    cosine.powi(self.shininess).raw as i128,
                )
            },
            None => (Colour::black(), 0, 0),
        }
    }

    /// The colour of the lit surface of object `obj` at `at`, reached along
    /// `incident`: black beyond the deepest level; else what it emits, the
    /// highlights of the lights, and its own colour's share of the light
    /// that it takes from the lights and from what it mirrors.
    pub fn colour(
        &self,
        obj: usize,
        at: WorldPoint,
        incident: WorldVec,
        incident_from: WorldPoint,
        world: &Vec<WorldObject>,
        depth: u8,
        rng: &mut rand::StdRng,
    ) -> (c: Colour)
        requires
            obj < world.len(),
        ensures
            lit_outcome(world@, *self, obj as int, at, incident, depth as nat, c),
        decreases budget(depth as nat), 0nat,
    {
        if depth > MAX_DEPTH {
            return Colour::black();
        }
        let norm = world[obj].normal(at);
        let view = world[obj].reflect_ray(at, incident);
        let emitted = self.emit.colour(obj, at, incident, incident_from, world, depth + 1, rng);
        let base = self.absorb.colour(obj, at, incident, incident_from, world, depth + 1, rng);
        let mut taken: (i128, i128, i128) = (0, 0, 0);
        let mut shine: (i128, i128, i128) = (0, 0, 0);
        let ghost mut lights: Seq<Colour> = Seq::empty();
        let mut i: usize = 0;
        while i < world.len()
            invariant
                i <= world.len(),
                obj < world.len(),
                depth <= MAX_DEPTH,
                norm == world[obj as int].spec_normal(at),
                view == world[obj as int].spec_reflect_ray(at, incident),
                lights.len() == i,
                lights_outcome(world@, obj as int, at, (depth + 1) as nat, lights, i as nat),
                taken.0 == diffuse_sum(world@, obj as int, at, lights, 0, i as nat),
                taken.1 == diffuse_sum(world@, obj as int, at, lights, 1, i as nat),
                taken.2 == diffuse_sum(world@, obj as int, at, lights, 2, i as nat),
                shine.0 == specular_sum(
                    world@,
                    obj as int,
                    at,
                    incident,
                    self.shininess,
                    lights,
                    0,
                    i as nat,
                ),
                shine.1 == specular_sum(
                    world@,
                    obj as int,
                    at,
                    incident,
                    self.shininess,
                    lights,
                    1,
                    i as nat,
                ),
                shine.2 == specular_sum(
                    world@,
                    obj as int,
                    at,
                    incident,
                    self.shininess,
                    lights,
                    2,
                    i as nat,
                ),
                0 <= taken.0 <= 16711680 * i,
                0 <= taken.1 <= 16711680 * i,
                0 <= taken.2 <= 16711680 * i,
                0 <= shine.0 <= 16711680 * i,
                0 <= shine.1 <= 16711680 * i,
                0 <= shine.2 <= 16711680 * i,
            decreases world.len() - i,
        {
            let (seen, wd, ws) = self.light(obj, i, at, norm, view, incident, world, depth + 1, rng);
            proof {
                let next = lights.push(seen);
                lemma_lights_prefix(
                    world@,
                    obj as int,
                    at,
                    (depth + 1) as nat,
                    lights,
                    next,
                    i as nat,
                );
                lemma_sums_prefix(world@, obj as int, at, incident, self.shininess, lights, next, 0, i as nat);
                lemma_sums_prefix(world@, obj as int, at, incident, self.shininess, lights, next, 1, i as nat);
                lemma_sums_prefix(world@, obj as int, at, incident, self.shininess, lights, next, 2, i as nat);
                crate::fixed::lemma_product_bound(seen.r as int, wd as int, 255, 65536);
                crate::fixed::lemma_product_bound(seen.g as int, wd as int, 255, 65536);
                crate::fixed::lemma_product_bound(seen.b as int, wd as int, 255, 65536);
                crate::fixed::lemma_product_bound(seen.r as int, ws as int, 255, 65536);
                crate::fixed::lemma_product_bound(seen.g as int, ws as int, 255, 65536);
                crate::fixed::lemma_product_bound(seen.b as int, ws as int, 255, 65536);
                lemma_product_nonnegative(seen.r as int, wd as int);
                lemma_product_nonnegative(seen.g as int, wd as int);
                lemma_product_nonnegative(seen.b as int, wd as int);
                lemma_product_nonnegative(seen.r as int, ws as int);
                lemma_product_nonnegative(seen.g as int, ws as int);
                lemma_product_nonnegative(seen.b as int, ws as int);
                lights = next;
            }
            taken =
            (
                taken.0 + (seen.r as i128) * wd,
                taken.1 + (seen.g as i128) * wd,
                taken.2 + (seen.b as i128) * wd,
            );
            shine =
            (
                shine.0 + (seen.r as i128) * ws,
                shine.1 + (seen.g as i128) * ws,
                shine.2 + (seen.b as i128) * ws,
            );
            i += 1;
        }
        let mut mirrored = Colour::black();
        if self.reflectivity.raw > 0 {
            mirrored =
            cast_rays(at, view, depth + 1, world, self.roughness, rng);
            proof {
                crate::fixed::lemma_product_bound(
                    mirrored.r as int,
                    self.reflectivity.raw as int,
                    255,
                    0x8000_0000,
                );
                crate::fixed::lemma_product_bound(
                    mirrored.g as int,
                    self.reflectivity.raw as int,
                    255,
                    0x8000_0000,
                );
                crate::fixed::lemma_product_bound(
                    mirrored.b as int,
                    self.reflectivity.raw as int,
                    255,
                    0x8000_0000,
                );
                lemma_product_nonnegative(mirrored.r as int, self.reflectivity.raw as int);
                lemma_product_nonnegative(mirrored.g as int, self.reflectivity.raw as int);
                lemma_product_nonnegative(mirrored.b as int, self.reflectivity.raw as int);
            }
            let k: i128 = self.reflectivity.raw as i128;
            taken =
            (
                taken.0 + (mirrored.r as i128) * k,
                taken.1 + (mirrored.g as i128) * k,
                taken.2 + (mirrored.b as i128) * k,
            );
        }
        let c = Colour {
            r: lit_byte(emitted.r, base.r, self.specular_amount, shine.0, taken.0),
            g: lit_byte(emitted.g, base.g, self.specular_amount, shine.1, taken.1),
            b: lit_byte(emitted.b, base.b, self.specular_amount, shine.2, taken.2),
        };
        proof {
            lemma_lit_outcome(
                world@,
                *self,
                obj as int,
                at,
                incident,
                depth as nat,
                emitted,
                base,
                lights,
                mirrored,
            );
        }
        c
    }
}

/// A product of two numbers that are not negative is not negative.
proof fn lemma_product_nonnegative(a: int, b: int)
    requires
        a >= 0,
        b >= 0,
    ensures
        a * b >= 0,
{
    assert(a * b >= 0) by (nonlinear_arith)
        requires
            a >= 0,
            b >= 0,
    ;
}

impl Material {
    /// The colour of the material on object `obj` at the point `at`, which
    /// a ray from `incident_from` along `incident` has reached.
    pub fn colour(
        &self,
        obj: usize,
        at: WorldPoint,
        incident: WorldVec,
        incident_from: WorldPoint,
        world: &Vec<WorldObject>,
        depth: u8,
        rng: &mut rand::StdRng,
    ) -> (c: Colour)
        requires
            obj < world.len(),
        ensures
            shade_outcome(world@, *self, obj as int, at, incident, depth as nat, c),
        decreases budget(depth as nat), 1nat,
    {
        match self {
            Material::Flat(f) => f.colour(),
            Material::Checkerboard(k) => k.colour(at),
            Material::Gradient(g) => g.colour(at),
            Material::Reflect(r) => r.colour(obj, at, incident, incident_from, world, depth, rng),
            Material::Lit(l) => l.colour(obj, at, incident, incident_from, world, depth, rng),
        }
    }
}

} // verus!
