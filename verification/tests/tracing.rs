use rand::{SeedableRng, StdRng};
use raytracer::camera::{get_pixel, render_pixel};
use raytracer::colour::Colour;
use raytracer::fixed::Fixed;
use raytracer::material::{
    CheckerboardMaterial, FlatMaterial, GradientMaterial, LitMaterial, Material, ReflectMaterial,
};
use raytracer::shading::{
    cast_ray, cast_rays, draw_jitter, jittered_direction, mean_of, sample_number,
};
use raytracer::shape::{Plane, Shape, Sphere};
use raytracer::vector::WorldPoint;
use raytracer::world::{trace, WorldObject};

const ONE: i32 = 65536;

fn seeded(seed: usize) -> StdRng {
    let words: &[usize] = &[seed, 17, 4711];
    StdRng::from_seed(words)
}

fn pt(x: i32, y: i32, z: i32) -> WorldPoint {
    WorldPoint::new(Fixed::from_int(x), Fixed::from_int(y), Fixed::from_int(z))
}

fn raw(x: i32, y: i32, z: i32) -> WorldPoint {
    WorldPoint::new(Fixed { raw: x }, Fixed { raw: y }, Fixed { raw: z })
}

fn flat(r: u8, g: u8, b: u8) -> Material {
    Material::Flat(FlatMaterial { colour: Colour::new(r, g, b) })
}

fn lit(emit: Material, absorb: Material, specular_amount: Fixed, reflectivity: Fixed) -> Material {
    Material::Lit(LitMaterial {
        emit: Box::new(emit),
        absorb: Box::new(absorb),
        shininess: 10,
        specular_amount,
        reflectivity,
        roughness: Fixed::from_int(1),
    })
}

fn sphere(position: WorldPoint, radius: Fixed, material: Material, light: bool) -> WorldObject {
    WorldObject { position, shape: Shape::Sphere(Sphere { radius }), material, light }
}

fn plane(position: WorldPoint, width: i32, height: i32, material: Material) -> WorldObject {
    WorldObject {
        position,
        shape: Shape::Plane(Plane { width: Fixed::from_int(width), height: Fixed::from_int(height) }),
        material,
        light: false,
    }
}

fn zero() -> Fixed {
    Fixed::from_int(0)
}

/// A floor that takes light, under a white lamp five above the origin.
fn floor_and_lamp(specular_amount: Fixed, lamp: Material) -> Vec<WorldObject> {
    vec![
        plane(pt(0, 0, 0), 10, 10, lit(flat(10, 20, 30), flat(200, 100, 50), specular_amount, zero())),
        sphere(pt(0, 5, 0), Fixed::from_int(1), lamp, true),
    ]
}

fn shade(world: &Vec<WorldObject>, obj: usize, at: WorldPoint, incident: WorldPoint, depth: u8) -> Colour {
    let mut rng = seeded(1);
    world[obj].material.colour(obj, at, incident, at.minus(incident), world, depth, &mut rng)
}

#[test]
fn trace_finds_the_nearest() {
    let world = vec![
        sphere(pt(10, 0, 0), Fixed::from_int(1), flat(1, 1, 1), false),
        sphere(pt(4, 0, 0), Fixed::from_int(1), flat(2, 2, 2), false),
        sphere(pt(7, 0, 0), Fixed::from_int(1), flat(3, 3, 3), false),
    ];
    assert_eq!(trace(pt(0, 0, 0), pt(1, 0, 0), &world), Some((1, Fixed::from_int(3))));
    assert_eq!(trace(pt(20, 0, 0), pt(-1, 0, 0), &world), Some((0, Fixed::from_int(9))));
    assert_eq!(trace(pt(0, 0, 0), pt(0, 1, 0), &world), None);
}

#[test]
fn trace_keeps_the_first_of_equals() {
    let world = vec![
        sphere(pt(9, 0, 0), Fixed::from_int(1), flat(1, 1, 1), false),
        sphere(pt(4, 0, 0), Fixed::from_int(1), flat(2, 2, 2), false),
        sphere(pt(4, 0, 0), Fixed::from_int(1), flat(3, 3, 3), false),
        plane(pt(3, 0, 0), 2, 2, flat(4, 4, 4)),
    ];
    assert_eq!(trace(pt(0, 0, 0), pt(1, 0, 0), &world), Some((1, Fixed::from_int(3))));
}

#[test]
fn trace_of_an_empty_scene_finds_nothing() {
    let world: Vec<WorldObject> = Vec::new();
    assert_eq!(trace(pt(0, 0, 0), pt(1, 0, 0), &world), None);
}

#[test]
fn cast_ray_into_nothing_is_black() {
    let world = vec![sphere(pt(4, 0, 0), Fixed::from_int(1), flat(9, 8, 7), false)];
    let mut rng = seeded(2);
    assert_eq!(cast_ray(pt(0, 0, 0), pt(-1, 0, 0), 0, &world, &mut rng), Colour::new(0, 0, 0));
    let nothing: Vec<WorldObject> = Vec::new();
    assert_eq!(cast_ray(pt(0, 0, 0), pt(1, 0, 0), 0, &nothing, &mut rng), Colour::new(0, 0, 0));
}

#[test]
fn cast_ray_shows_the_material_of_the_nearest() {
    let world = vec![
        sphere(pt(9, 0, 0), Fixed::from_int(1), flat(1, 2, 3), false),
        sphere(pt(4, 0, 0), Fixed::from_int(1), flat(9, 8, 7), false),
    ];
    let mut rng = seeded(2);
    assert_eq!(cast_ray(pt(0, 0, 0), pt(1, 0, 0), 0, &world, &mut rng), Colour::new(9, 8, 7));
    assert_eq!(cast_ray(pt(0, 0, 0), pt(1, 0, 0), 200, &world, &mut rng), Colour::new(9, 8, 7));
}

#[test]
fn cast_ray_does_not_meet_the_surface_it_leaves() {
    // From the very surface of the near sphere outward: the far one shows.
    let world = vec![
        sphere(pt(0, 0, 0), Fixed::from_int(1), flat(1, 2, 3), false),
        sphere(pt(5, 0, 0), Fixed::from_int(1), flat(9, 8, 7), false),
    ];
    let mut rng = seeded(2);
    assert_eq!(cast_ray(pt(1, 0, 0), pt(1, 0, 0), 0, &world, &mut rng), Colour::new(9, 8, 7));
}

#[test]
fn cast_ray_shades_the_point_on_the_surface() {
    // A floor whose colour rises from black at its own height to white a
    // hundredth above: on the floor itself it is black.
    let ramp = Material::Gradient(GradientMaterial {
        from: Colour::new(0, 0, 0),
        to: Colour::new(255, 255, 255),
        from_y: Fixed { raw: 0 },
        to_y: Fixed { raw: 655 },
    });
    let world = vec![plane(pt(0, 0, 0), 10, 10, ramp)];
    let mut rng = seeded(2);
    assert_eq!(cast_ray(pt(0, 5, 0), pt(0, -1, 0), 0, &world, &mut rng), Colour::new(0, 0, 0));
    assert_eq!(cast_ray(pt(3, 1, -2), pt(0, -1, 0), 0, &world, &mut rng), Colour::new(0, 0, 0));
}

#[test]
fn cast_ray_shades_the_point_on_the_surface_from_below() {
    // The same from the other side: white at the height of the floor, black
    // from a hundredth below it down.
    let ramp = Material::Gradient(GradientMaterial {
        from: Colour::new(0, 0, 0),
        to: Colour::new(255, 255, 255),
        from_y: Fixed { raw: -655 },
        to_y: Fixed { raw: 0 },
    });
    let world = vec![plane(pt(0, 0, 0), 10, 10, ramp)];
    let mut rng = seeded(2);
    assert_eq!(cast_ray(pt(0, -5, 0), pt(0, 1, 0), 0, &world, &mut rng), Colour::new(255, 255, 255));
}

#[test]
fn cast_ray_shades_a_ball_where_the_ray_enters_it() {
    // A ball of radius one round the origin, seen from five above: the ray
    // enters at a height of one, where a ramp from 0 to 2 is half way.
    let ramp = Material::Gradient(GradientMaterial {
        from: Colour::new(0, 0, 0),
        to: Colour::new(200, 100, 50),
        from_y: Fixed::from_int(0),
        to_y: Fixed::from_int(2),
    });
    let world = vec![sphere(pt(0, 0, 0), Fixed::from_int(1), ramp, false)];
    let mut rng = seeded(2);
    assert_eq!(cast_ray(pt(0, 5, 0), pt(0, -1, 0), 0, &world, &mut rng), Colour::new(100, 50, 25));
}

#[test]
fn cast_ray_gives_the_texture_at_the_hit() {
    let board = Material::Checkerboard(CheckerboardMaterial {
        colour1: Colour::new(230, 10, 10),
        colour2: Colour::new(0, 0, 0),
        repeat: Fixed::from_int(1),
    });
    let world = vec![plane(pt(0, 0, 0), 50, 50, board)];
    let mut rng = seeded(2);
    let down = pt(0, -1, 0);
    let half = ONE / 2;
    assert_eq!(cast_ray(raw(half, ONE, half), down, 0, &world, &mut rng), Colour::new(230, 10, 10));
    assert_eq!(cast_ray(raw(ONE + half, ONE, half), down, 0, &world, &mut rng), Colour::new(0, 0, 0));
    assert_eq!(
        cast_ray(raw(ONE + half, ONE, ONE + half), down, 0, &world, &mut rng),
        Colour::new(230, 10, 10)
    );
}

#[test]
fn cast_ray_gives_the_gradient_of_a_sky() {
    let sky = Material::Gradient(GradientMaterial {
        from: Colour::new(255, 255, 255),
        to: Colour::new(135, 206, 235),
        from_y: Fixed::from_int(-10),
        to_y: Fixed::from_int(3),
    });
    let world = vec![sphere(pt(0, 0, 0), Fixed::from_int(100), sky, false)];
    let mut rng = seeded(2);
    assert_eq!(cast_ray(pt(0, 0, 0), pt(0, 1, 0), 0, &world, &mut rng), Colour::new(135, 206, 235));
    assert_eq!(cast_ray(pt(0, 0, 0), pt(0, -1, 0), 0, &world, &mut rng), Colour::new(255, 255, 255));
}

#[test]
fn lit_floor_under_a_lamp() {
    // Straight under the lamp the floor takes all its light: its own colour
    // plus what it emits.
    let world = floor_and_lamp(zero(), flat(255, 255, 255));
    assert_eq!(shade(&world, 0, pt(0, 0, 0), pt(0, -1, 0), 0), Colour::new(210, 120, 80));
}

#[test]
fn lit_floor_takes_the_colour_of_the_lamp() {
    let world = floor_and_lamp(zero(), flat(255, 0, 51));
    // Red in full, no green, a fifth of the blue of the floor: 50 / 5 = 10.
    assert_eq!(shade(&world, 0, pt(0, 0, 0), pt(0, -1, 0), 0), Colour::new(210, 20, 40));
}

#[test]
fn lit_floor_takes_less_light_at_a_slant() {
    // Four to the side of a lamp five up, seen from the floor the lamp is
    // at a cosine of 5 / sqrt(41) = 0.78087: 10 + 200 * 0.78087 = 166.17.
    let world = floor_and_lamp(zero(), flat(255, 255, 255));
    let c = shade(&world, 0, pt(4, 0, 0), pt(0, -1, 0), 0);
    assert_eq!(c, Colour::new(166, 98, 69));
}

#[test]
fn lit_floor_shines_toward_the_mirrored_ray() {
    // Looked at from straight above, the mirrored ray points at the lamp:
    // half of its colour is added.
    let half = Fixed::from_ratio(1, 2);
    let world = vec![
        plane(pt(0, 0, 0), 10, 10, lit(flat(10, 20, 30), flat(0, 0, 0), half, zero())),
        sphere(pt(0, 5, 0), Fixed::from_int(1), flat(100, 60, 20), true),
    ];
    assert_eq!(shade(&world, 0, pt(0, 0, 0), pt(0, -1, 0), 0), Colour::new(60, 50, 40));
    // Looked at along the floor the mirrored ray stays level and the
    // highlight is gone.
    assert_eq!(shade(&world, 0, pt(0, 0, 0), pt(1, 0, 0), 0), Colour::new(10, 20, 30));
}

#[test]
fn lit_highlight_falls_off_with_the_shininess() {
    // The lamp stands at a cosine of 0.8 from the mirrored ray; to the tenth
    // power that is 0.10737: 100 * 0.10737 = 10.7.
    let one = Fixed::from_int(1);
    let world = vec![
        plane(pt(0, 0, 0), 10, 10, lit(flat(0, 0, 0), flat(0, 0, 0), one, zero())),
        sphere(pt(3, 4, 0), Fixed::from_int(1), flat(100, 200, 0), true),
    ];
    let c = shade(&world, 0, pt(0, 0, 0), pt(0, -1, 0), 0);
    assert_eq!(c, Colour::new(11, 21, 0));
}

#[test]
fn lit_negative_specular_amount_darkens() {
    let world = vec![
        plane(pt(0, 0, 0), 10, 10, lit(flat(100, 100, 100), flat(0, 0, 0), Fixed::from_int(-1), zero())),
        sphere(pt(0, 5, 0), Fixed::from_int(1), flat(30, 100, 200), true),
    ];
    assert_eq!(shade(&world, 0, pt(0, 0, 0), pt(0, -1, 0), 0), Colour::new(70, 0, 0));
}

#[test]
fn lit_colours_are_pinned_to_bytes() {
    // Four lamps in a row above a white floor that emits as well.
    let mut world = vec![plane(
        pt(0, 0, 0),
        10,
        10,
        lit(flat(200, 0, 0), flat(255, 255, 255), Fixed::from_int(1), zero()),
    )];
    for x in [-3, -1, 1, 3] {
        world.push(sphere(pt(x, 5, 0), Fixed::from_ratio(1, 2), flat(255, 255, 255), true));
    }
    assert_eq!(shade(&world, 0, pt(0, 0, 0), pt(0, -1, 0), 0), Colour::new(255, 255, 255));
}

#[test]
fn shadowed_light_gives_nothing() {
    let mut world = floor_and_lamp(Fixed::from_int(1), flat(255, 255, 255));
    // In the open the floor is bright.
    assert_eq!(shade(&world, 0, pt(0, 0, 0), pt(0, -1, 0), 0), Colour::new(255, 255, 255));
    // A ball between the floor and the lamp leaves what the floor emits.
    world.push(sphere(pt(0, 2, 0), Fixed::from_ratio(1, 2), flat(7, 7, 7), false));
    assert_eq!(shade(&world, 0, pt(0, 0, 0), pt(0, -1, 0), 0), Colour::new(10, 20, 30));
    // Beside the shadow the light is back.
    let c = shade(&world, 0, pt(3, 0, 0), pt(0, -1, 0), 0);
    assert!(c.r > 10 && c.g > 20 && c.b > 30);
    // Without the ball the floor is bright again.
    world.pop();
    assert_eq!(shade(&world, 0, pt(0, 0, 0), pt(0, -1, 0), 0), Colour::new(255, 255, 255));
}

#[test]
fn a_nearer_lamp_shadows_a_farther_one() {
    let world = vec![
        plane(pt(0, 0, 0), 10, 10, lit(flat(0, 0, 0), flat(255, 255, 255), zero(), zero())),
        sphere(pt(0, 8, 0), Fixed::from_int(1), flat(0, 200, 0), true),
        sphere(pt(0, 4, 0), Fixed::from_int(1), flat(100, 0, 0), true),
    ];
    assert_eq!(shade(&world, 0, pt(0, 0, 0), pt(0, -1, 0), 0), Colour::new(100, 0, 0));
}

#[test]
fn an_object_that_is_no_light_gives_none() {
    let world = vec![
        plane(pt(0, 0, 0), 10, 10, lit(flat(10, 20, 30), flat(255, 255, 255), zero(), zero())),
        sphere(pt(0, 5, 0), Fixed::from_int(1), flat(255, 255, 255), false),
    ];
    assert_eq!(shade(&world, 0, pt(0, 0, 0), pt(0, -1, 0), 0), Colour::new(10, 20, 30));
}

#[test]
fn a_light_does_not_light_itself() {
    // A lamp with a lit surface, alone: it shows what it emits and no more,
    // wherever on it one looks.
    let world = vec![sphere(
        pt(0, 0, 0),
        Fixed::from_int(1),
        lit(flat(5, 6, 7), flat(255, 255, 255), Fixed::from_int(1), zero()),
        true,
    )];
    assert_eq!(shade(&world, 0, pt(1, 0, 0), pt(-1, 0, 0), 0), Colour::new(5, 6, 7));
    assert_eq!(shade(&world, 0, pt(0, 1, 0), pt(0, -1, 0), 0), Colour::new(5, 6, 7));
    let mut rng = seeded(3);
    assert_eq!(cast_ray(pt(5, 0, 0), pt(-1, 0, 0), 0, &world, &mut rng), Colour::new(5, 6, 7));
}

#[test]
fn two_lamps_light_each_other_but_not_themselves() {
    let lamp = |r: u8| lit(flat(r, 0, 0), flat(255, 255, 255), zero(), zero());
    let world = vec![
        sphere(pt(0, 0, 0), Fixed::from_int(1), lamp(10), true),
        sphere(pt(5, 0, 0), Fixed::from_int(1), lamp(100), true),
    ];
    // The near lamp emits 10 and takes the light of the far one, which in
    // turn is what that one emits and takes, down to the deepest level.
    let c = shade(&world, 0, pt(1, 0, 0), pt(-1, 0, 0), 0);
    assert_eq!(c, Colour::new(220, 0, 0));
    let d = shade(&world, 0, pt(1, 0, 0), pt(-1, 0, 0), 3);
    assert_eq!(d, Colour::new(10, 0, 0));
}

#[test]
fn beyond_the_deepest_level_a_lit_surface_is_black() {
    let world = floor_and_lamp(Fixed::from_int(1), flat(255, 255, 255));
    assert_eq!(shade(&world, 0, pt(0, 0, 0), pt(0, -1, 0), 3), Colour::new(255, 255, 255));
    assert_eq!(shade(&world, 0, pt(0, 0, 0), pt(0, -1, 0), 4), Colour::new(0, 0, 0));
    assert_eq!(shade(&world, 0, pt(0, 0, 0), pt(0, -1, 0), 255), Colour::new(0, 0, 0));
}

#[test]
fn sub_materials_are_seen_one_level_deeper() {
    // The floor emits through a lit material of its own, which is black from
    // the deepest level on.
    let inner = lit(flat(40, 40, 40), flat(0, 0, 0), zero(), zero());
    let world = vec![plane(pt(0, 0, 0), 10, 10, lit(inner, flat(0, 0, 0), zero(), zero()))];
    assert_eq!(shade(&world, 0, pt(0, 0, 0), pt(0, -1, 0), 2), Colour::new(40, 40, 40));
    assert_eq!(shade(&world, 0, pt(0, 0, 0), pt(0, -1, 0), 3), Colour::new(0, 0, 0));
}

#[test]
fn facing_mirrors_stop_at_the_deepest_level() {
    // Two full mirrors that each emit ten: the ray runs between them and
    // every level down to the deepest adds its ten, and none below.
    let mirror = || lit(flat(10, 10, 10), flat(255, 255, 255), zero(), Fixed::from_int(1));
    let world = vec![
        sphere(pt(0, 0, 0), Fixed::from_int(1), mirror(), false),
        sphere(pt(5, 0, 0), Fixed::from_int(1), mirror(), false),
    ];
    for seed in 0..5 {
        let mut rng = seeded(seed);
        let from = raw(5 * ONE / 2, 0, 0);
        assert_eq!(cast_ray(from, pt(1, 0, 0), 0, &world, &mut rng), Colour::new(40, 40, 40));
        assert_eq!(cast_ray(from, pt(1, 0, 0), 1, &world, &mut rng), Colour::new(30, 30, 30));
        assert_eq!(cast_ray(from, pt(1, 0, 0), 2, &world, &mut rng), Colour::new(20, 20, 20));
        assert_eq!(cast_ray(from, pt(1, 0, 0), 3, &world, &mut rng), Colour::new(10, 10, 10));
        assert_eq!(cast_ray(from, pt(1, 0, 0), 4, &world, &mut rng), Colour::new(0, 0, 0));
    }
}

#[test]
fn reflection_is_taken_as_light_by_the_surface() {
    // A half mirror with a surface of its own colour before a flat ball:
    // the share of the surface of half of what is mirrored.
    let world = vec![
        plane(
            pt(0, 0, 0),
            10,
            10,
            lit(flat(1, 2, 3), flat(255, 102, 0), zero(), Fixed::from_ratio(1, 2)),
        ),
        sphere(pt(0, 5, 0), Fixed::from_int(1), flat(200, 100, 50), false),
    ];
    // 1 + 100, 2 + 50 * 102 / 255, 3 + 0.
    assert_eq!(shade(&world, 0, pt(0, 0, 0), pt(0, -1, 0), 0), Colour::new(101, 22, 3));
}

#[test]
fn tinted_mirror_shows_the_share_of_its_base() {
    let mirror = Material::Reflect(ReflectMaterial {
        base: Box::new(flat(255, 0, 128)),
        smoothness: Fixed::from_int(1),
    });
    let world = vec![
        plane(pt(0, 0, 0), 10, 10, mirror),
        sphere(pt(0, 5, 0), Fixed::from_int(1), flat(100, 200, 50), false),
    ];
    // 100 * 255 / 255, 200 * 0 / 255, 50 * 128 / 255 = 25.1.
    assert_eq!(shade(&world, 0, pt(0, 0, 0), pt(0, -1, 0), 0), Colour::new(100, 0, 25));
    assert_eq!(shade(&world, 0, pt(0, 0, 0), pt(0, -1, 0), 3), Colour::new(100, 0, 25));
    assert_eq!(shade(&world, 0, pt(0, 0, 0), pt(0, -1, 0), 4), Colour::new(0, 0, 0));
}

#[test]
fn tinted_mirror_before_nothing_is_black() {
    let mirror = Material::Reflect(ReflectMaterial {
        base: Box::new(flat(255, 255, 255)),
        smoothness: zero(),
    });
    let world = vec![plane(pt(0, 0, 0), 10, 10, mirror)];
    assert_eq!(shade(&world, 0, pt(0, 0, 0), pt(0, -1, 0), 0), Colour::new(0, 0, 0));
}

#[test]
fn sample_number_is_the_whole_part_between_one_and_five() {
    assert_eq!(sample_number(Fixed::from_int(0)), 1);
    assert_eq!(sample_number(Fixed::from_int(-7)), 1);
    assert_eq!(sample_number(Fixed::from_ratio(1, 2)), 1);
    assert_eq!(sample_number(Fixed::from_int(1)), 1);
    assert_eq!(sample_number(Fixed { raw: 2 * ONE - 1 }), 1);
    assert_eq!(sample_number(Fixed::from_int(2)), 2);
    assert_eq!(sample_number(Fixed::from_ratio(7, 2)), 3);
    assert_eq!(sample_number(Fixed { raw: 5 * ONE - 1 }), 4);
    assert_eq!(sample_number(Fixed::from_int(5)), 5);
    assert_eq!(sample_number(Fixed::from_int(100)), 5);
    assert_eq!(sample_number(Fixed { raw: i32::MAX }), 5);
}

#[test]
fn jitter_is_drawn_from_its_range() {
    let mut rng = seeded(7);
    let mut lowest = i32::MAX;
    let mut highest = i32::MIN;
    for _ in 0..2000 {
        let d = draw_jitter(&mut rng);
        for v in [d.x.raw, d.y.raw, d.z.raw] {
            assert!(7 <= v && v < 66, "drawn {}", v);
            lowest = lowest.min(v);
            highest = highest.max(v);
        }
    }
    // Over so many draws both ends of the range are reached.
    assert_eq!(lowest, 7);
    assert_eq!(highest, 65);
}

#[test]
fn jitter_follows_the_seed() {
    let mut a = seeded(11);
    let mut b = seeded(11);
    for _ in 0..50 {
        assert_eq!(draw_jitter(&mut a), draw_jitter(&mut b));
    }
}

#[test]
fn jittered_direction_moves_the_ray_by_the_draw_times_the_roughness() {
    let ray = pt(1, 0, 0);
    let draw = raw(10, 20, 30);
    assert_eq!(jittered_direction(ray, draw, zero()), ray);
    let rough = jittered_direction(ray, draw, Fixed::from_int(100));
    assert_eq!(rough, raw(ONE + 1000, 2000, 3000).normalize());
    assert!(rough.y.raw > 0 && rough.z.raw > rough.y.raw && rough.x.raw <= ONE);
}

#[test]
fn mean_of_colours_is_rounded() {
    assert_eq!(mean_of(&vec![Colour::new(1, 2, 3)]), Colour::new(1, 2, 3));
    assert_eq!(
        mean_of(&vec![Colour::new(0, 10, 255), Colour::new(1, 20, 255)]),
        Colour::new(1, 15, 255)
    );
    assert_eq!(
        mean_of(&vec![Colour::new(0, 0, 0), Colour::new(0, 1, 2), Colour::new(1, 1, 2)]),
        Colour::new(0, 1, 1)
    );
}

#[test]
fn smooth_rays_are_one_ray() {
    let sky = Material::Gradient(GradientMaterial {
        from: Colour::new(255, 255, 255),
        to: Colour::new(135, 206, 235),
        from_y: Fixed::from_int(-10),
        to_y: Fixed::from_int(3),
    });
    let world = vec![
        sphere(pt(4, 0, 0), Fixed::from_int(1), flat(9, 8, 7), false),
        sphere(pt(0, 0, 0), Fixed::from_int(100), sky, false),
    ];
    let mut rng = seeded(5);
    for dir in [pt(1, 0, 0), pt(0, 1, 0), pt(0, 0, -1), pt(1, 1, 0).normalize(), pt(1, 2, 3).normalize()] {
        let one = cast_ray(pt(0, 0, 0), dir.normalize(), 0, &world, &mut rng);
        let many = cast_rays(pt(0, 0, 0), dir, 0, &world, zero(), &mut rng);
        assert_eq!(one, many);
    }
}

#[test]
fn rough_rays_of_a_flat_scene_are_its_colour() {
    let world = vec![sphere(pt(0, 0, 0), Fixed::from_int(100), flat(9, 8, 7), false)];
    let mut rng = seeded(5);
    for roughness in [1, 3, 5, 100] {
        let c = cast_rays(pt(0, 0, 0), pt(1, 0, 0), 0, &world, Fixed::from_int(roughness), &mut rng);
        assert_eq!(c, Colour::new(9, 8, 7));
    }
}

#[test]
fn rough_rays_blur_an_edge() {
    // Half the view is white, half black; a very rough mirror that looks
    // along the edge sees a mean of both over its five directions.
    let board = Material::Checkerboard(CheckerboardMaterial {
        colour1: Colour::new(255, 255, 255),
        colour2: Colour::new(0, 0, 0),
        repeat: Fixed::from_int(1000),
    });
    let world = vec![plane(pt(0, 0, 0), 4000, 4000, board)];
    let mut rng = seeded(9);
    let mut seen = std::collections::BTreeSet::new();
    for _ in 0..200 {
        // From above the corner of four cells, tilted back so that the
        // jitter, which only adds, straddles the corner.
        let c = cast_rays(
            raw(0, 10 * ONE, 0),
            raw(-30, -ONE, -30),
            0,
            &world,
            Fixed::from_int(1000),
            &mut rng,
        );
        assert!(c.r == c.g && c.g == c.b);
        assert!(c.r % 51 == 0, "a mean of five of 0 and 255: {}", c.r);
        seen.insert(c.r);
    }
    assert!(seen.len() > 1);
}

#[test]
fn render_pixel_is_a_ray_at_depth_zero() {
    let world = vec![
        sphere(pt(4, 0, 0), Fixed::from_int(1), flat(9, 8, 7), false),
        plane(pt(0, -2, 0), 50, 50, lit(flat(1, 2, 3), flat(0, 0, 0), zero(), zero())),
    ];
    let mut rng = seeded(4);
    assert_eq!(render_pixel(pt(-5, 0, 0), pt(1, 0, 0), &world, &mut rng), Colour::new(9, 8, 7));
    assert_eq!(render_pixel(pt(-5, 0, 0), pt(0, -1, 0), &world, &mut rng), Colour::new(1, 2, 3));
    assert_eq!(render_pixel(pt(-5, 0, 0), pt(0, 1, 0), &world, &mut rng), Colour::new(0, 0, 0));
}

#[test]
fn get_pixel_looks_from_the_camera_through_the_picture() {
    let board = Material::Checkerboard(CheckerboardMaterial {
        colour1: Colour::new(200, 0, 0),
        colour2: Colour::new(0, 0, 200),
        repeat: Fixed::from_int(100),
    });
    let world = vec![
        sphere(pt(4, 0, 0), Fixed::from_int(1), flat(9, 8, 7), false),
        plane(pt(0, -2, 0), 150, 150, board),
    ];
    let mut rng = seeded(4);
    // The middle of the picture looks along x at the ball.
    assert_eq!(get_pixel(zero(), zero(), 1920, 1080, &world, &mut rng), Colour::new(9, 8, 7));
    // The lower edge looks down at the floor: to the right of the middle at
    // a cell with z above zero, to the left at one below.
    let edge = Fixed::from_ratio(1, 2);
    let right = Fixed::from_ratio(1, 4);
    let left = Fixed::from_ratio(-1, 4);
    assert_eq!(get_pixel(right, edge, 1920, 1080, &world, &mut rng), Colour::new(200, 0, 0));
    assert_eq!(get_pixel(left, edge, 1920, 1080, &world, &mut rng), Colour::new(0, 0, 200));
    // The upper edge looks at nothing.
    assert_eq!(
        get_pixel(zero(), Fixed::from_ratio(-1, 2), 1920, 1080, &world, &mut rng),
        Colour::new(0, 0, 0)
    );
}

#[test]
fn get_pixel_of_a_picture_without_width_looks_level() {
    let world = vec![sphere(pt(4, 0, 0), Fixed::from_int(1), flat(9, 8, 7), false)];
    let mut rng = seeded(4);
    assert_eq!(
        get_pixel(zero(), Fixed::from_ratio(1, 2), 0, 1080, &world, &mut rng),
        Colour::new(9, 8, 7)
    );
}
