//! A path is no brighter than white: surfaces whose albedo is from zero to
//! one take light away and add none, and the sky in which a path ends is
//! from black to white.

use vstd::prelude::*;
use vstd::arithmetic::power2::*;
use crate::binary32::{
    Binary32, magnitude_of, lemma_magnitude_order, lemma_one_is_unit_scale, unit_scale,
    INFINITY_BITS,
};
use crate::rounding::{nearest, lemma_rounding_exists, lemma_rounding_monotone, lemma_rounds_held};
use crate::vec3f::Vec3f32;
use crate::ray::Ray;
use crate::sphere::{Material, Sphere, closest_hit_spec, lemma_closest_hit_in_scene};
use crate::sampling::{BounceSample, MAX_DEPTH};
use crate::scatter::scatter_spec;
use crate::trace::color_spec;
use crate::camera::Camera;
use crate::render::{
    path_color_spec, image_coordinate_spec, pixel_spec, PathChanceView, T_MIN_BITS, T_MAX_BITS,
};
use crate::channel::{at_most, colour_at_most, lemma_pixel_of_colours_is_bytes};
use crate::daylight::{tame, lemma_sky_from_zero_to_one};

verus! {

/// Whether `x` is a number from zero to one.
pub open spec fn from_zero_to_one(x: Binary32) -> bool {
    !x.is_nan() && 0 <= x.scaled() <= unit_scale()
}

/// Whether every channel of the colour `v` is from zero to one.
pub open spec fn colour_from_zero_to_one(v: Vec3f32) -> bool {
    from_zero_to_one(v.x) && from_zero_to_one(v.y) && from_zero_to_one(v.z)
}

/// Whether the albedo of the material, if it has one, is from zero to one
/// in every channel.
pub open spec fn albedo_in_range(material: Material) -> bool {
    match material {
        Material::Lambertian { albedo } => colour_from_zero_to_one(albedo),
        Material::Metal { albedo, fuzz } => colour_from_zero_to_one(albedo),
        Material::Dielectric { refractive_index } => true,
    }
}

/// Whether every sphere of the scene has an albedo from zero to one.
pub open spec fn scene_in_range(spheres: Seq<Sphere>) -> bool {
    forall|i: int| 0 <= i < spheres.len() ==> albedo_in_range((#[trigger] spheres[i]).material)
}

/// The ray in which the path that starts with `r` escapes to the sky, if it
/// does: `r` itself where it hits nothing, the escaping ray of the path
/// that goes on from the scattered ray where the material lets it go on,
/// and none where the path ends in black.
pub open spec fn escaping_ray_spec(
    r: Ray,
    spheres: Seq<Sphere>,
    tmin: Binary32,
    tmax: Binary32,
    depth: nat,
    bounces: Seq<BounceSample>,
) -> Option<Ray>
    decreases MAX_DEPTH - depth,
{
    match closest_hit_spec(r, spheres, tmin, tmax, spheres.len()) {
        None => Some(r),
        Some((i, rec)) => {
            if depth >= MAX_DEPTH || depth >= bounces.len() {
                None
            } else {
                let s = scatter_spec(spheres[i as int].material, r, rec, bounces[depth as int]);
                if s.proceed {
                    escaping_ray_spec(s.scattered, spheres, tmin, tmax, depth + 1, bounces)
                } else {
                    None
                }
            }
        },
    }
}

/// What a factor from zero to one makes of a number of at most one is at
/// most one.
pub proof fn lemma_dimmed_at_most_one(a: Binary32, x: Binary32)
    requires
        from_zero_to_one(a),
        at_most(x, 1),
    ensures
        at_most(a.spec_mul(x), 1),
{
    let unit = unit_scale();
    let r = a.spec_mul(x);
    lemma_pow2_pos(149);
    lemma_one_is_unit_scale();
    lemma_magnitude_order(0, a.abs_bits());
    lemma_magnitude_order(0, x.abs_bits());
    lemma_magnitude_order(0, INFINITY_BITS as int);
    lemma_magnitude_order(0x3f80_0000, INFINITY_BITS as int);
    lemma_magnitude_order(a.abs_bits(), INFINITY_BITS as int);
    assert(magnitude_of(0) == 0);
    assert(1 * unit == unit);
    if !r.is_nan() && a.is_finite() && x.is_finite() {
        let num = a.magnitude() * x.magnitude();
        let n = nearest(num, unit);
        lemma_rounding_exists(num, unit);
        lemma_magnitude_order(0, n);
        assert(r == Binary32::compose(a.sign() != x.sign(), n));
        if a.sign() == x.sign() {
            if a.sign() {
                // a zero with its sign bit set
                assert(num == 0) by (nonlinear_arith)
                    requires
                        num == a.magnitude() * x.magnitude(),
                        a.magnitude() == 0,
                ;
                lemma_rounds_held(0, unit);
                assert(magnitude_of(0) * unit == 0) by (nonlinear_arith)
                    requires
                        magnitude_of(0) == 0,
                ;
            } else {
                lemma_rounds_held(x.abs_bits(), unit);
                assert(num * unit <= (magnitude_of(x.abs_bits()) * unit) * unit)
                    by (nonlinear_arith)
                    requires
                        num == a.magnitude() * x.magnitude(),
                        0 <= a.magnitude() <= unit,
                        x.magnitude() == magnitude_of(x.abs_bits()),
                        x.magnitude() >= 0,
                        unit > 0,
                ;
                lemma_rounding_monotone(
                    n,
                    num,
                    unit,
                    x.abs_bits(),
                    magnitude_of(x.abs_bits()) * unit,
                    unit,
                );
                lemma_magnitude_order(n, x.abs_bits());
            }
        }
    }
}

/// What a factor from zero to one makes of a number from zero to one is
/// from zero to one.
pub proof fn lemma_dimmed_in_range(a: Binary32, x: Binary32)
    requires
        from_zero_to_one(a),
        from_zero_to_one(x),
    ensures
        from_zero_to_one(a.spec_mul(x)),
{
    let unit = unit_scale();
    let r = a.spec_mul(x);
    lemma_pow2_pos(149);
    lemma_one_is_unit_scale();
    lemma_magnitude_order(0, a.abs_bits());
    lemma_magnitude_order(0, x.abs_bits());
    lemma_magnitude_order(a.abs_bits(), 0x3f80_0000);
    lemma_magnitude_order(x.abs_bits(), 0x3f80_0000);
    assert(magnitude_of(0) == 0);
    assert(1 * unit == unit);
    lemma_dimmed_at_most_one(a, x);
    let num = a.magnitude() * x.magnitude();
    let n = nearest(num, unit);
    lemma_rounding_exists(num, unit);
    lemma_magnitude_order(0, n);
    assert(r == Binary32::compose(a.sign() != x.sign(), n));
    if a.sign() != x.sign() {
        assert(num == 0) by (nonlinear_arith)
            requires
                num == a.magnitude() * x.magnitude(),
                a.magnitude() == 0 || x.magnitude() == 0,
        ;
        lemma_rounds_held(0, unit);
        assert(magnitude_of(0) * unit == 0) by (nonlinear_arith)
            requires
                magnitude_of(0) == 0,
        ;
    }
}

/// A path is from black to white: in a scene whose albedos are from zero
/// to one, every channel of the colour along a path is from zero to one,
/// as long as the direction of the ray in which the path escapes, if it
/// does, is tame.
pub proof fn lemma_path_from_zero_to_one(
    r: Ray,
    spheres: Seq<Sphere>,
    tmin: Binary32,
    tmax: Binary32,
    depth: nat,
    bounces: Seq<BounceSample>,
)
    requires
        scene_in_range(spheres),
        escaping_ray_spec(r, spheres, tmin, tmax, depth, bounces) matches Some(last) ==> tame(
            last.b,
        ),
    ensures
        colour_from_zero_to_one(color_spec(r, spheres, tmin, tmax, depth, bounces)),
    decreases MAX_DEPTH - depth,
{
    lemma_pow2_pos(149);
    assert(magnitude_of(0) == 0);
    match closest_hit_spec(r, spheres, tmin, tmax, spheres.len()) {
        None => {
            lemma_sky_from_zero_to_one(r);
        },
        Some((i, rec)) => {
            lemma_closest_hit_in_scene(r, spheres, tmin, tmax, spheres.len());
            if depth >= MAX_DEPTH || depth >= bounces.len() {
            } else {
                let material = spheres[i as int].material;
                let s = scatter_spec(material, r, rec, bounces[depth as int]);
                if s.proceed {
                    lemma_path_from_zero_to_one(
                        s.scattered,
                        spheres,
                        tmin,
                        tmax,
                        depth + 1,
                        bounces,
                    );
                    let deeper = color_spec(s.scattered, spheres, tmin, tmax, depth + 1, bounces);
                    assert(albedo_in_range(material));
                    lemma_one_is_unit_scale();
                    assert(colour_from_zero_to_one(s.attenuation));
                    lemma_dimmed_in_range(s.attenuation.x, deeper.x);
                    lemma_dimmed_in_range(s.attenuation.y, deeper.y);
                    lemma_dimmed_in_range(s.attenuation.z, deeper.z);
                }
            }
        },
    }
}

/// The ray in which the path through a pixel escapes to the sky, if it does.
pub open spec fn path_escaping_ray_spec(
    camera: Camera,
    spheres: Seq<Sphere>,
    i: u32,
    j: u32,
    nx: u32,
    ny: u32,
    chance: PathChanceView,
) -> Option<Ray> {
    let u = image_coordinate_spec(i, chance.jitter_u, nx);
    let v = image_coordinate_spec(j, chance.jitter_v, ny);
    escaping_ray_spec(
        camera.spec_ray_through(u, v, chance.lens),
        spheres,
        Binary32 { bits: T_MIN_BITS },
        Binary32 { bits: T_MAX_BITS },
        0,
        chance.bounces,
    )
}

/// A scene whose albedos are from zero to one gives bytes: every channel of
/// a pixel is from 0 to 255, as long as there are at most 2^24 paths and
/// the direction of the ray in which a path escapes, if it does, is tame.
pub proof fn lemma_pixel_of_scene_is_bytes(
    camera: Camera,
    spheres: Seq<Sphere>,
    i: u32,
    j: u32,
    nx: u32,
    ny: u32,
    chances: Seq<PathChanceView>,
)
    requires
        chances.len() <= 0x100_0000,
        scene_in_range(spheres),
        forall|k: int|
            0 <= k < chances.len() ==> (path_escaping_ray_spec(
                camera,
                spheres,
                i,
                j,
                nx,
                ny,
                #[trigger] chances[k],
            ) matches Some(last) ==> tame(last.b)),
    ensures
        0 <= pixel_spec(camera, spheres, i, j, nx, ny, chances).r <= 255,
        0 <= pixel_spec(camera, spheres, i, j, nx, ny, chances).g <= 255,
        0 <= pixel_spec(camera, spheres, i, j, nx, ny, chances).b <= 255,
{
    assert forall|k: int| 0 <= k < chances.len() implies colour_at_most(
        path_color_spec(camera, spheres, i, j, nx, ny, #[trigger] chances[k]),
        1,
    ) by {
        let chance = chances[k];
        let u = image_coordinate_spec(i, chance.jitter_u, nx);
        let v = image_coordinate_spec(j, chance.jitter_v, ny);
        assert(path_escaping_ray_spec(camera, spheres, i, j, nx, ny, chance) matches Some(last)
            ==> tame(last.b));
        lemma_path_from_zero_to_one(
            camera.spec_ray_through(u, v, chance.lens),
            spheres,
            Binary32 { bits: T_MIN_BITS },
            Binary32 { bits: T_MAX_BITS },
            0,
            chance.bounces,
        );
        assert(1 * unit_scale() == unit_scale());
    }
    lemma_pixel_of_colours_is_bytes(camera, spheres, i, j, nx, ny, chances);
}

} // verus!
