//! Spheres, and where a ray meets them.

use vstd::prelude::*;
use crate::binary32::Binary32;
use crate::vec3f::Vec3f32;
use crate::ray::Ray;

verus! {

/// What a surface is made of.
#[derive(Clone, Copy, Debug, PartialEq, Eq, Structural)]
pub enum Material {
    /// Diffuse, with its reflectance by colour channel.
    Lambertian { albedo: Vec3f32 },
    /// Mirror-like, with its reflectance and a roughness from zero to one.
    Metal { albedo: Vec3f32, fuzz: Binary32 },
    /// Clear glass, with its index of refraction.
    Dielectric { refractive_index: Binary32 },
}

/// A sphere in the scene. A negative radius turns the surface normal
/// inwards, which makes the inner face of a hollow glass sphere.
#[derive(Clone, Copy, Debug, PartialEq, Eq, Structural)]
pub struct Sphere {
    pub center: Vec3f32,
    pub radius: Binary32,
    pub material: Material,
}

/// Where a ray met a sphere: the ray's parameter there, the point, and the
/// surface normal at it.
#[derive(Clone, Copy, Debug, PartialEq, Eq, Structural)]
pub struct HitRecord {
    pub t: Binary32,
    pub p: Vec3f32,
    pub normal: Vec3f32,
}

/// The discriminant `b*b - a*c` of the equation for the parameters at which
/// the ray meets the sphere, with `a` the direction's squared length, `b` the
/// dot product of the direction and the offset of the ray's origin from the
/// centre, and `c` that offset's squared length less the squared radius.
pub open spec fn discriminant_spec(center: Vec3f32, radius: Binary32, r: Ray) -> Binary32 {
    let oc = r.a.spec_sub(center);
    let a = r.b.spec_dot(r.b);
    let b = oc.spec_dot(r.b);
    let c = oc.spec_dot(oc).spec_sub(radius.spec_mul(radius));
    b.spec_mul(b).spec_sub(a.spec_mul(c))
}

/// The smaller solution `(-b - sqrt(discriminant)) / a`.
pub open spec fn near_root_spec(center: Vec3f32, radius: Binary32, r: Ray) -> Binary32 {
    let oc = r.a.spec_sub(center);
    let a = r.b.spec_dot(r.b);
    let b = oc.spec_dot(r.b);
    b.spec_neg().spec_sub(discriminant_spec(center, radius, r).spec_sqrt()).spec_div(a)
}

/// The larger solution `(-b + sqrt(discriminant)) / a`.
pub open spec fn far_root_spec(center: Vec3f32, radius: Binary32, r: Ray) -> Binary32 {
    let oc = r.a.spec_sub(center);
    let a = r.b.spec_dot(r.b);
    let b = oc.spec_dot(r.b);
    b.spec_neg().spec_add(discriminant_spec(center, radius, r).spec_sqrt()).spec_div(a)
}

/// Whether `t` lies strictly between `tmin` and `tmax`.
pub open spec fn in_range(t: Binary32, tmin: Binary32, tmax: Binary32) -> bool {
    t.spec_lt(tmax) && tmin.spec_lt(t)
}

/// The record of a hit at parameter `t`: the point on the ray, and the
/// offset of that point from the centre divided by the radius.
pub open spec fn record_at(center: Vec3f32, radius: Binary32, r: Ray, t: Binary32) -> HitRecord {
    let p = r.spec_point_at(t);
    HitRecord { t, p, normal: p.spec_sub(center).spec_shrink(radius) }
}

/// Where the ray meets the sphere within the open range from `tmin` to
/// `tmax`: nowhere unless the discriminant is above zero; else at the smaller
/// solution if that is in range, else at the larger one if that is.
pub open spec fn hit_sphere_spec(
    center: Vec3f32,
    radius: Binary32,
    r: Ray,
    tmin: Binary32,
    tmax: Binary32,
) -> Option<HitRecord> {
    let near = near_root_spec(center, radius, r);
    let far = far_root_spec(center, radius, r);
    if !(Binary32 { bits: 0 }).spec_lt(discriminant_spec(center, radius, r)) {
        None
    } else if in_range(near, tmin, tmax) {
        Some(record_at(center, radius, r, near))
    } else if in_range(far, tmin, tmax) {
        Some(record_at(center, radius, r, far))
    } else {
        None
    }
}

/// Where the ray meets the sphere within the open range from `tmin` to
/// `tmax`, if it does. A ray that only grazes the sphere, with a
/// discriminant of zero, misses it.
pub fn hit_sphere(center: &Vec3f32, radius: Binary32, r: &Ray, tmin: Binary32, tmax: Binary32) -> (hit:
    Option<HitRecord>)
    ensures
        hit == hit_sphere_spec(*center, radius, *r, tmin, tmax),
        !(Binary32 { bits: 0 }).spec_lt(discriminant_spec(*center, radius, *r)) ==> hit is None,
        hit matches Some(rec) ==> in_range(rec.t, tmin, tmax),
{
    let oc = r.a - *center;
    let a = r.b.dot_product(&r.b);
    let b = oc.dot_product(&r.b);
    let c = oc.dot_product(&oc) - radius * radius;
    let discriminant = b * b - a * c;
    if discriminant.gt(Binary32::zero()) {
        let root = discriminant.sqrt();
        let near = (b.neg() - root) / a;
        if near.lt(tmax) && near.gt(tmin) {
            let p = r.point_at_parameter(&near);
            return Some(HitRecord { t: near, p, normal: (p - *center) / radius });
        }
        let far = (b.neg() + root) / a;
        if far.lt(tmax) && far.gt(tmin) {
            let p = r.point_at_parameter(&far);
            return Some(HitRecord { t: far, p, normal: (p - *center) / radius });
        }
    }
    None
}

/// The nearest hit among the first `n` spheres, with the index of the sphere
/// that was hit. The spheres are taken in order, each tested within the
/// range that the hits before it have left: from `tmin` to the nearest
/// parameter found so far.
pub open spec fn closest_hit_spec(
    r: Ray,
    spheres: Seq<Sphere>,
    tmin: Binary32,
    tmax: Binary32,
    n: nat,
) -> Option<(usize, HitRecord)>
    decreases n,
{
    if n == 0 || n > spheres.len() {
        None
    } else {
        let before = closest_hit_spec(r, spheres, tmin, tmax, (n - 1) as nat);
        let limit = match before {
            Some((_, rec)) => rec.t,
            None => tmax,
        };
        let s = spheres[n - 1];
        match hit_sphere_spec(s.center, s.radius, r, tmin, limit) {
            Some(rec) => Some(((n - 1) as usize, rec)),
            None => before,
        }
    }
}

/// The nearest hit of the ray among all the spheres within the open range
/// from `tmin` to `tmax`, with the index of the sphere that was hit; `None`
/// where the ray meets none of them, as in an empty scene.
pub fn closest_hit(r: &Ray, spheres: &Vec<Sphere>, tmin: Binary32, tmax: Binary32) -> (hit: Option<
    (usize, HitRecord),
>)
    ensures
        hit == closest_hit_spec(*r, spheres@, tmin, tmax, spheres@.len()),
        hit matches Some((i, rec)) ==> i < spheres@.len() && in_range(rec.t, tmin, tmax),
{
    let mut best: Option<(usize, HitRecord)> = None;
    let mut closest_so_far = tmax;
    let mut i: usize = 0;
    while i < spheres.len()
        invariant
            i <= spheres@.len(),
            best == closest_hit_spec(*r, spheres@, tmin, tmax, i as nat),
            closest_so_far == match best {
                Some((_, rec)) => rec.t,
                None => tmax,
            },
            best matches Some((k, rec)) ==> k < i && in_range(rec.t, tmin, tmax),
        decreases spheres@.len() - i,
    {
        let s = &spheres[i];
        match hit_sphere(&s.center, s.radius, r, tmin, closest_so_far) {
            Some(rec) => {
                proof {
                    lemma_tighter(rec.t, tmin, closest_so_far, tmax, best is None);
                }
                best = Some((i, rec));
                closest_so_far = rec.t;
            },
            None => {},
        }
        i = i + 1;
    }
    best
}

/// A parameter inside a range that has been tightened is inside the first range.
proof fn lemma_tighter(t: Binary32, tmin: Binary32, limit: Binary32, tmax: Binary32, first: bool)
    requires
        in_range(t, tmin, limit),
        first ==> limit == tmax,
        !first ==> in_range(limit, tmin, tmax),
    ensures
        in_range(t, tmin, tmax),
{
}

/// How the hit within a tightened range stands to the hit within the whole
/// range: it is found in the whole range too and is not the farther of the
/// two; and where the tightened range holds no hit, a hit in the whole
/// range lies at or beyond the limit.
pub proof fn lemma_hit_in_tighter_range(
    center: Vec3f32,
    radius: Binary32,
    r: Ray,
    tmin: Binary32,
    limit: Binary32,
    tmax: Binary32,
)
    requires
        limit == tmax || in_range(limit, tmin, tmax),
    ensures
        hit_sphere_spec(center, radius, r, tmin, limit) matches Some(cur) ==> in_range(
            cur.t,
            tmin,
            limit,
        ) && in_range(cur.t, tmin, tmax) && (hit_sphere_spec(center, radius, r, tmin, tmax)
            matches Some(full) && cur.t.spec_le(full.t)),
        hit_sphere_spec(center, radius, r, tmin, limit) is None ==> (hit_sphere_spec(
            center,
            radius,
            r,
            tmin,
            tmax,
        ) matches Some(full) ==> limit.spec_le(full.t)),
{
}

/// The scan finds the nearest hit: no sphere of the scene, tested on its
/// own within the whole range, is hit nearer than what `closest_hit`
/// returns; and where `closest_hit` returns nothing, no sphere is hit at all.
pub proof fn lemma_closest_hit_is_nearest(
    r: Ray,
    spheres: Seq<Sphere>,
    tmin: Binary32,
    tmax: Binary32,
    n: nat,
    j: int,
)
    requires
        0 <= j < n <= spheres.len(),
    ensures
        closest_hit_spec(r, spheres, tmin, tmax, n) is None ==> hit_sphere_spec(
            spheres[j].center,
            spheres[j].radius,
            r,
            tmin,
            tmax,
        ) is None,
        closest_hit_spec(r, spheres, tmin, tmax, n) matches Some((i, rec)) ==> i < n && in_range(
            rec.t,
            tmin,
            tmax,
        ) && (hit_sphere_spec(spheres[j].center, spheres[j].radius, r, tmin, tmax) matches Some(
            own,
        ) ==> rec.t.spec_le(own.t)),
    decreases n,
{
    let before = closest_hit_spec(r, spheres, tmin, tmax, (n - 1) as nat);
    let limit = match before {
        Some((_, rec)) => rec.t,
        None => tmax,
    };
    let last = spheres[n - 1];
    if n > 1 {
        lemma_closest_hit_is_nearest(r, spheres, tmin, tmax, (n - 1) as nat, 0);
    }
    lemma_hit_in_tighter_range(last.center, last.radius, r, tmin, limit, tmax);
    if j < n - 1 {
        lemma_closest_hit_is_nearest(r, spheres, tmin, tmax, (n - 1) as nat, j);
    }
}

/// The sphere that the scan names is one of the first `n` of the scene.
pub proof fn lemma_closest_hit_in_scene(
    r: Ray,
    spheres: Seq<Sphere>,
    tmin: Binary32,
    tmax: Binary32,
    n: nat,
)
    ensures
        closest_hit_spec(r, spheres, tmin, tmax, n) matches Some((i, rec)) ==> i < n && n
            <= spheres.len(),
    decreases n,
{
    if n > 0 && n <= spheres.len() {
        lemma_closest_hit_in_scene(r, spheres, tmin, tmax, (n - 1) as nat);
    }
}

} // verus!
