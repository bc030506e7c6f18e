//! The colour that comes back along a ray: the sky where the ray escapes,
//! and what the surfaces it bounces off let through of it.

use vstd::prelude::*;
use crate::binary32::{Binary32, lemma_one_is_unit_scale};
use crate::vec3f::Vec3f32;
use crate::ray::Ray;
use crate::sphere::{Sphere, closest_hit, closest_hit_spec};
use crate::sampling::{
    BounceSample, random_bounce, lemma_centre_inside, MAX_DEPTH, ONE_BITS,
};
use crate::scatter::{scatter, scatter_spec, white};

verus! {

/// Pattern of 0.5.
pub const HALF_BITS: u32 = 0x3f00_0000;

/// Pattern of the binary32 number nearest to 0.7.
pub const SEVEN_TENTHS_BITS: u32 = 0x3f33_3333;

/// The blue of the sky: (0.5, 0.7, 1.0).
pub open spec fn sky_blue() -> Vec3f32 {
    Vec3f32 {
        x: Binary32 { bits: HALF_BITS },
        y: Binary32 { bits: SEVEN_TENTHS_BITS },
        z: Binary32 { bits: ONE_BITS },
    }
}

/// The colour of the sky along a ray: white blended into sky blue by
/// `t = 0.5 * (y + 1)`, with `y` the height of the ray's unit direction.
pub open spec fn sky_spec(r: Ray) -> Vec3f32 {
    let one = Binary32 { bits: ONE_BITS };
    let t = (Binary32 { bits: HALF_BITS }).spec_mul(r.b.spec_unit_vector().y.spec_add(one));
    white().spec_scale(one.spec_sub(t)).spec_add(sky_blue().spec_scale(t))
}

/// The colour that comes back along the ray `r`, with `bounces[d]` the
/// chance for the bounce at depth `d`.
///
/// A ray that hits nothing shows the sky. A ray that hits a sphere is black
/// at depth `MAX_DEPTH` and beyond, where the path is cut off, and where
/// there is no chance left for the bounce; else the material scatters it,
/// and the colour is black if the material absorbs the ray, and otherwise
/// what the material lets through of the colour along the scattered ray,
/// one level deeper.
pub open spec fn color_spec(
    r: Ray,
    spheres: Seq<Sphere>,
    tmin: Binary32,
    tmax: Binary32,
    depth: nat,
    bounces: Seq<BounceSample>,
) -> Vec3f32
    decreases MAX_DEPTH - depth,
{
    match closest_hit_spec(r, spheres, tmin, tmax, spheres.len()) {
        None => sky_spec(r),
        Some((i, rec)) => {
            if depth >= MAX_DEPTH || depth >= bounces.len() {
                Vec3f32::spec_zeroes()
            } else {
                let s = scatter_spec(spheres[i as int].material, r, rec, bounces[depth as int]);
                if s.proceed {
                    s.attenuation.spec_mul(
                        color_spec(s.scattered, spheres, tmin, tmax, depth + 1, bounces),
                    )
                } else {
                    Vec3f32::spec_zeroes()
                }
            }
        },
    }
}

/// Whether `bounces` holds a well-formed chance for every depth.
pub open spec fn full_chance(bounces: Seq<BounceSample>) -> bool {
    bounces.len() == MAX_DEPTH && forall|i: int|
        0 <= i < bounces.len() ==> (#[trigger] bounces[i]).wf()
}

/// The colour along a ray at some depth does not depend on the chance of
/// the depths above it.
pub proof fn lemma_color_ignores_earlier(
    r: Ray,
    spheres: Seq<Sphere>,
    tmin: Binary32,
    tmax: Binary32,
    depth: nat,
    b1: Seq<BounceSample>,
    b2: Seq<BounceSample>,
)
    requires
        b1.len() == b2.len(),
        forall|k: int| depth <= k < b1.len() ==> b1[k] == b2[k],
    ensures
        color_spec(r, spheres, tmin, tmax, depth, b1) == color_spec(
            r,
            spheres,
            tmin,
            tmax,
            depth,
            b2,
        ),
    decreases MAX_DEPTH - depth,
{
    match closest_hit_spec(r, spheres, tmin, tmax, spheres.len()) {
        None => {},
        Some((i, rec)) => {
            if depth >= MAX_DEPTH || depth >= b1.len() {
            } else {
                let s = scatter_spec(spheres[i as int].material, r, rec, b1[depth as int]);
                if s.proceed {
                    lemma_color_ignores_earlier(s.scattered, spheres, tmin, tmax, depth + 1, b1, b2);
                }
            }
        },
    }
}

/// The colour of the sky along a ray.
pub fn sky(r: &Ray) -> (c: Vec3f32)
    ensures
        c == sky_spec(*r),
{
    let one = Binary32::one();
    let unit_direction = r.b.unit_vector();
    let t = Binary32 { bits: HALF_BITS } * (unit_direction.y + one);
    let v1 = Vec3f32 { x: one, y: one, z: one } * (one - t);
    let v2 = Vec3f32 {
        x: Binary32 { bits: HALF_BITS },
        y: Binary32 { bits: SEVEN_TENTHS_BITS },
        z: one,
    } * t;
    v1 + v2
}

/// The chance that stands in where none was drawn: the centre of the unit
/// sphere and a draw of zero.
pub open spec fn idle_chance() -> Seq<BounceSample> {
    Seq::new(
        MAX_DEPTH as nat,
        |i: int| BounceSample { point: Vec3f32::spec_zeroes(), draw: Binary32 { bits: 0 } },
    )
}

/// Follows a path, with the chance for each bounce taken from `fixed` where
/// that is given and drawn when the bounce comes where it is not. Returns
/// the colour and the chance that was used.
fn walk(
    r: &Ray,
    spheres: &Vec<Sphere>,
    tmin: Binary32,
    tmax: Binary32,
    depth: u32,
    fixed: Option<&Vec<BounceSample>>,
) -> (out: (Vec3f32, Ghost<Seq<BounceSample>>))
    ensures
        out.0 == color_spec(*r, spheres@, tmin, tmax, depth as nat, out.1@),
        fixed matches Some(bounces) ==> out.1@ == bounces@,
        fixed is None ==> full_chance(out.1@),
    decreases MAX_DEPTH - depth,
{
    let ghost idle = idle_chance();
    proof {
        lemma_centre_inside();
        lemma_one_is_unit_scale();
        assert(full_chance(idle));
    }
    let ghost unused = match fixed {
        Some(bounces) => bounces@,
        None => idle,
    };
    match closest_hit(r, spheres, tmin, tmax) {
        None => (sky(r), Ghost(unused)),
        Some((i, rec)) => {
            if depth >= MAX_DEPTH {
                return (Vec3f32::zeroes(), Ghost(unused));
            }
            let sample = match fixed {
                Some(bounces) => {
                    if depth as usize >= bounces.len() {
                        return (Vec3f32::zeroes(), Ghost(unused));
                    }
                    bounces[depth as usize]
                },
                None => random_bounce(),
            };
            let s = scatter(&spheres[i].material, r, &rec, &sample);
            if s.proceed {
                let (deeper, Ghost(used)) = walk(&s.scattered, spheres, tmin, tmax, depth + 1, fixed);
                let ghost all = match fixed {
                    Some(bounces) => bounces@,
                    None => used.update(depth as int, sample),
                };
                proof {
                    lemma_color_ignores_earlier(
                        s.scattered,
                        spheres@,
                        tmin,
                        tmax,
                        (depth + 1) as nat,
                        used,
                        all,
                    );
                }
                (s.attenuation * deeper, Ghost(all))
            } else {
                let ghost all = match fixed {
                    Some(bounces) => bounces@,
                    None => idle.update(depth as int, sample),
                };
                (Vec3f32::zeroes(), Ghost(all))
            }
        },
    }
}

/// The colour that comes back along the ray `r` through the scene
/// `spheres`, with hits counted within the open range from `tmin` to `tmax`
/// and `bounces[d]` the chance for the bounce at depth `d`. An empty scene
/// shows the sky.
pub fn color_with(
    r: &Ray,
    spheres: &Vec<Sphere>,
    tmin: Binary32,
    tmax: Binary32,
    depth: u32,
    bounces: &Vec<BounceSample>,
) -> (c: Vec3f32)
    ensures
        c == color_spec(*r, spheres@, tmin, tmax, depth as nat, bounces@),
{
    let (c, _) = walk(r, spheres, tmin, tmax, depth, Some(bounces));
    c
}

/// The colour that comes back along the ray `r` through the scene
/// `spheres`, with the chance for each bounce drawn from the thread's
/// generator when the bounce comes: the colour that `color_with` gives for
/// some well-formed chance.
pub fn color(r: &Ray, spheres: &Vec<Sphere>, tmin: Binary32, tmax: Binary32, depth: u32) -> (c:
    Vec3f32)
    ensures
        exists|bounces: Seq<BounceSample>|
            full_chance(bounces) && c == color_spec(
                *r,
                spheres@,
                tmin,
                tmax,
                depth as nat,
                bounces,
            ),
        closest_hit_spec(*r, spheres@, tmin, tmax, spheres@.len()) is None ==> c == sky_spec(*r),
        closest_hit_spec(*r, spheres@, tmin, tmax, spheres@.len()) is Some && depth >= MAX_DEPTH
            ==> c == Vec3f32::spec_zeroes(),
{
    let (c, Ghost(used)) = walk(r, spheres, tmin, tmax, depth, None);
    c
}

} // verus!
