//! The camera: from a place on the image plane to a ray into the scene.

use vstd::prelude::*;
use crate::binary32::Binary32;
use crate::vec3f::Vec3f32;
use crate::ray::Ray;
use crate::sampling::{inside_unit_spec, random_in_unit_disk, TWO_BITS};
use crate::arith::{lemma_mul_by_zero, lemma_add_zero};

verus! {

/// A camera with a thin lens. Its frame `u`, `v`, `w` is right-handed, with
/// `w` pointing from the target back to the eye. All of it is fixed when
/// the camera is made.
#[derive(Clone, Copy, Debug, PartialEq, Eq, Structural)]
pub struct Camera {
    pub origin: Vec3f32,
    pub lower_left_corner: Vec3f32,
    pub horizontal: Vec3f32,
    pub vertical: Vec3f32,
    pub u: Vec3f32,
    pub v: Vec3f32,
    pub w: Vec3f32,
    pub lens_radius: Binary32,
}

impl Camera {
    /// The camera at `look_from` that looks at `look_at` with `vup` upwards.
    ///
    /// `w` is the normalized offset of the eye from the target, `u` the
    /// normalized cross product of `vup` and `w`, and `v` the cross product
    /// of `w` and `u`. With `half_width = aspect * half_height`, the image
    /// plane's lower left corner is `look_from - u * (focus_dist *
    /// half_width) - v * (focus_dist * half_height) - w * focus_dist`; the
    /// plane spans `u * (focus_dist * (2 * half_width))` across and `v *
    /// (focus_dist * (2 * half_height))` upwards. The lens radius is half
    /// the aperture.
    pub open spec fn spec_new(
        look_from: Vec3f32,
        look_at: Vec3f32,
        vup: Vec3f32,
        half_height: Binary32,
        aspect: Binary32,
        aperture: Binary32,
        focus_dist: Binary32,
    ) -> Camera {
        let two = Binary32 { bits: TWO_BITS };
        let half_width = aspect.spec_mul(half_height);
        let w = look_from.spec_sub(look_at).spec_normalize();
        let u = vup.spec_cross(w).spec_normalize();
        let v = w.spec_cross(u);
        Camera {
            origin: look_from,
            lower_left_corner: look_from.spec_sub(u.spec_scale(focus_dist.spec_mul(half_width)))
                .spec_sub(v.spec_scale(focus_dist.spec_mul(half_height))).spec_sub(
                w.spec_scale(focus_dist),
            ),
            horizontal: u.spec_scale(focus_dist.spec_mul(two.spec_mul(half_width))),
            vertical: v.spec_scale(focus_dist.spec_mul(two.spec_mul(half_height))),
            u,
            v,
            w,
            lens_radius: aperture.spec_div(two),
        }
    }

    /// The offset from the eye of the point at `(s, t)` on the image plane.
    pub open spec fn spec_direction_from_camera(self, s: Binary32, t: Binary32) -> Vec3f32 {
        self.lower_left_corner.spec_add(self.horizontal.spec_scale(s)).spec_add(
            self.vertical.spec_scale(t),
        ).spec_sub(self.origin)
    }

    /// Where the ray starts on the lens, as an offset from the eye: the lens
    /// point scaled by the lens radius, laid out along `u` and `v`.
    pub open spec fn spec_lens_offset(self, lens: Vec3f32) -> Vec3f32 {
        let rd = lens.spec_scale(self.lens_radius);
        self.u.spec_scale(rd.x).spec_add(self.v.spec_scale(rd.y))
    }

    /// The ray through the point `lens` of the unit disk that aims at the
    /// point at `(s, t)` on the image plane.
    pub open spec fn spec_ray_through(self, s: Binary32, t: Binary32, lens: Vec3f32) -> Ray {
        let offset = self.spec_lens_offset(lens);
        Ray {
            a: self.origin.spec_add(offset),
            b: self.spec_direction_from_camera(s, t).spec_sub(offset),
        }
    }

    /// The camera at `look_from` that looks at `look_at` with `vup` upwards.
    /// `half_height` is the tangent of half the vertical field of view,
    /// `aspect` the width of the image over its height, `aperture` the
    /// diameter of the lens, and `focus_dist` the distance at which the
    /// image is sharp.
    pub fn new(
        look_from: Vec3f32,
        look_at: Vec3f32,
        vup: Vec3f32,
        half_height: Binary32,
        aspect: Binary32,
        aperture: Binary32,
        focus_dist: Binary32,
    ) -> (c: Camera)
        ensures
            c == Camera::spec_new(
                look_from,
                look_at,
                vup,
                half_height,
                aspect,
                aperture,
                focus_dist,
            ),
            c.origin == look_from,
    {
        let two = Binary32 { bits: TWO_BITS };
        let half_width = aspect * half_height;
        let w = (look_from - look_at).normalize();
        let u = vup.cross_product(&w).normalize();
        let v = w.cross_product(&u);
        Camera {
            origin: look_from,
            lower_left_corner: look_from - u * (focus_dist * half_width) - v * (focus_dist
                * half_height) - w * focus_dist,
            horizontal: u * (focus_dist * (two * half_width)),
            vertical: v * (focus_dist * (two * half_height)),
            u,
            v,
            w,
            lens_radius: aperture / two,
        }
    }

    fn direction_from_camera(&self, u: Binary32, v: Binary32) -> (d: Vec3f32)
        ensures
            d == self.spec_direction_from_camera(u, v),
    {
        self.lower_left_corner + self.horizontal * u + self.vertical * v - self.origin
    }

    /// The ray through the point `lens` of the unit disk that aims at the
    /// point at `(u, v)` on the image plane, both from zero to one.
    pub fn get_ray_through(&self, u: Binary32, v: Binary32, lens: &Vec3f32) -> (r: Ray)
        ensures
            r == self.spec_ray_through(u, v, *lens),
    {
        let rd = *lens * self.lens_radius;
        let offset = self.u * rd.x + self.v * rd.y;
        Ray::new_from_vector(&(self.origin + offset), &(self.direction_from_camera(u, v) - offset))
    }

    /// A ray that aims at the point at `(u, v)` on the image plane, through
    /// a point of the lens drawn from the thread's generator: the ray that
    /// `get_ray_through` gives for some point inside the unit disk.
    pub fn get_ray(&self, u: Binary32, v: Binary32) -> (r: Ray)
        ensures
            exists|lens: Vec3f32|
                inside_unit_spec(lens) && lens.z == (Binary32 { bits: 0 }) && r
                    == self.spec_ray_through(u, v, lens),
    {
        let lens = random_in_unit_disk();
        self.get_ray_through(u, v, &lens)
    }
}

/// A camera without a lens is a pinhole: whatever the point of the lens,
/// the ray starts at the eye and aims at the point of the image plane.
pub proof fn lemma_pinhole_ignores_lens(c: Camera, s: Binary32, t: Binary32, lens: Vec3f32)
    requires
        c.lens_radius.is_zero(),
        c.u.is_finite(),
        c.v.is_finite(),
        lens.is_finite(),
    ensures
        c.spec_ray_through(s, t, lens).a.same_as(c.origin),
        c.spec_ray_through(s, t, lens).b.same_as(c.spec_direction_from_camera(s, t)),
{
    let rd = lens.spec_scale(c.lens_radius);
    lemma_mul_by_zero(lens.x, c.lens_radius);
    lemma_mul_by_zero(lens.y, c.lens_radius);
    let along_u = c.u.spec_scale(rd.x);
    let along_v = c.v.spec_scale(rd.y);
    lemma_mul_by_zero(c.u.x, rd.x);
    lemma_mul_by_zero(c.u.y, rd.x);
    lemma_mul_by_zero(c.u.z, rd.x);
    lemma_mul_by_zero(c.v.x, rd.y);
    lemma_mul_by_zero(c.v.y, rd.y);
    lemma_mul_by_zero(c.v.z, rd.y);
    let offset = c.spec_lens_offset(lens);
    lemma_add_zero(along_u.x, along_v.x);
    lemma_add_zero(along_u.y, along_v.y);
    lemma_add_zero(along_u.z, along_v.z);
    assert(offset.x.is_zero() && offset.y.is_zero() && offset.z.is_zero()) by {
        crate::binary32::lemma_magnitude_order(0, offset.x.abs_bits());
        crate::binary32::lemma_magnitude_order(0, offset.y.abs_bits());
        crate::binary32::lemma_magnitude_order(0, offset.z.abs_bits());
    }
    let aim = c.spec_direction_from_camera(s, t);
    lemma_add_zero(c.origin.x, offset.x);
    lemma_add_zero(c.origin.y, offset.y);
    lemma_add_zero(c.origin.z, offset.z);
    lemma_add_zero(aim.x, offset.x);
    lemma_add_zero(aim.y, offset.y);
    lemma_add_zero(aim.z, offset.z);
}

} // verus!
