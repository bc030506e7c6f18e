//! Through a pinhole the direction of a ray is affine in the place on the
//! image plane, up to rounding: the corner of the plane, and so much of
//! its width and of its height as the place says, less the eye.

use vstd::prelude::*;
use vstd::arithmetic::power2::*;
use crate::binary32::{Binary32, unit_scale};
use crate::accuracy::{
    abs, lemma_abs_product, lemma_cancel_bound, lemma_mul_error, lemma_add_error, lemma_sub_error,
};
use crate::rounding::lemma_pow2_le;
use crate::vec3f::Vec3f32;
use crate::camera::{Camera, lemma_pinhole_ignores_lens};

verus! {

/// Whether the three components of `v` are finite and at most `size` units
/// of 2^-149 in size.
pub open spec fn within_size(v: Vec3f32, size: int) -> bool {
    &&& v.is_finite()
    &&& abs(v.x.scaled()) <= size
    &&& abs(v.y.scaled()) <= size
    &&& abs(v.z.scaled()) <= size
}

/// Whether `s` is a finite number from -1 to 1.
pub open spec fn on_plane(s: Binary32) -> bool {
    s.is_finite() && abs(s.scaled()) <= unit_scale()
}

/// The exact affine combination `corner + across * s + up * t - eye`, in
/// units of 2^-298.
pub open spec fn exact_aim(
    corner: Binary32,
    across: Binary32,
    up: Binary32,
    eye: Binary32,
    s: Binary32,
    t: Binary32,
) -> int {
    corner.scaled() * unit_scale() + across.scaled() * s.scaled() + up.scaled() * t.scaled()
        - eye.scaled() * unit_scale()
}

/// A part of the plane's width or height: the product of a number of at
/// most `size` with a place on the plane.
proof fn lemma_part(x: Binary32, s: Binary32, size: int)
    requires
        x.is_finite(),
        abs(x.scaled()) <= size,
        on_plane(s),
        pow2(23) <= size <= pow2(270),
    ensures
        x.spec_mul(s).is_finite(),
        abs(x.spec_mul(s).scaled()) <= 3 * size,
        0x80_0000 * abs(x.spec_mul(s).scaled() * unit_scale() - x.scaled() * s.scaled()) <= ((size
            + 0x40_0000) * unit_scale()),
{
    let unit = unit_scale();
    let p = x.spec_mul(s);
    let exact = x.scaled() * s.scaled();
    lemma2_to64();
    lemma_pow2_pos(149);
    lemma_pow2_le(270, 276);
    lemma_abs_product(x.scaled(), s.scaled(), size, unit);
    assert(size * unit <= pow2(276) * unit) by (nonlinear_arith)
        requires
            size <= pow2(276),
            unit > 0,
    ;
    lemma_mul_error(x, s);
    let e = p.scaled() * unit - exact;
    assert((size + 0x40_0000) * unit == size * unit + 0x40_0000 * unit) by (nonlinear_arith);
    assert(abs(e) <= (size + 0x40_0000) * unit);
    assert(abs(p.scaled() * unit) <= (3 * size) * unit) by (nonlinear_arith)
        requires
            abs(p.scaled() * unit) <= size * unit + (size + 0x40_0000) * unit,
            0x40_0000 <= size,
            unit > 0,
    ;
    lemma_cancel_bound(p.scaled(), 3 * size, unit);
}

/// One component of the direction: it lies within one part in 2^18 of
/// `size` from the exact affine combination.
proof fn lemma_aim_component(
    corner: Binary32,
    across: Binary32,
    up: Binary32,
    eye: Binary32,
    s: Binary32,
    t: Binary32,
    size: int,
)
    requires
        corner.is_finite(),
        across.is_finite(),
        up.is_finite(),
        eye.is_finite(),
        abs(corner.scaled()) <= size,
        abs(across.scaled()) <= size,
        abs(up.scaled()) <= size,
        abs(eye.scaled()) <= size,
        on_plane(s),
        on_plane(t),
        pow2(23) <= size <= pow2(270),
    ensures
        corner.spec_add(across.spec_mul(s)).spec_add(up.spec_mul(t)).spec_sub(eye).is_finite(),
        0x4_0000 * abs(
            corner.spec_add(across.spec_mul(s)).spec_add(up.spec_mul(t)).spec_sub(eye).scaled()
                * unit_scale() - exact_aim(corner, across, up, eye, s, t),
        ) <= size * unit_scale(),
{
    let unit = unit_scale();
    let pa = across.spec_mul(s);
    let pb = up.spec_mul(t);
    let sa = corner.spec_add(pa);
    let sb = sa.spec_add(pb);
    let d = sb.spec_sub(eye);
    lemma2_to64();
    lemma_pow2_pos(149);
    lemma_pow2_adds(4, 270);
    lemma_pow2_le(274, 276);
    lemma_part(across, s, size);
    lemma_part(up, t, size);
    lemma_add_error(corner, pa);
    lemma_add_error(sa, pb);
    lemma_sub_error(sb, eye);
    let ea = pa.scaled() * unit - across.scaled() * s.scaled();
    let eb = pb.scaled() * unit - up.scaled() * t.scaled();
    let fa = sa.scaled() - (corner.scaled() + pa.scaled());
    let fb = sb.scaled() - (sa.scaled() + pb.scaled());
    let fd = d.scaled() - (sb.scaled() - eye.scaled());
    assert(d.scaled() * unit - exact_aim(corner, across, up, eye, s, t) == ea + eb + (fa + fb
        + fd) * unit) by (nonlinear_arith)
        requires
            ea == pa.scaled() * unit - across.scaled() * s.scaled(),
            eb == pb.scaled() * unit - up.scaled() * t.scaled(),
            fa == sa.scaled() - (corner.scaled() + pa.scaled()),
            fb == sb.scaled() - (sa.scaled() + pb.scaled()),
            fd == d.scaled() - (sb.scaled() - eye.scaled()),
            exact_aim(corner, across, up, eye, s, t) == corner.scaled() * unit + across.scaled()
                * s.scaled() + up.scaled() * t.scaled() - eye.scaled() * unit,
    ;
    let f = fa + fb + fd;
    assert(0x80_0000 * abs(f) <= 25 * size);
    assert(0x80_0000 * abs(f * unit) <= (25 * size) * unit) by (nonlinear_arith)
        requires
            0x80_0000 * abs(f) <= 25 * size,
            unit > 0,
    ;
    assert((25 * size) * unit == 25 * (size * unit)) by (nonlinear_arith);
    assert((size + 0x40_0000) * unit <= 2 * (size * unit)) by (nonlinear_arith)
        requires
            0x40_0000 <= size,
            unit > 0,
    ;
}

/// The direction of the ray through the place `(s, t)` of the image plane
/// is affine in `s` and `t`, up to rounding: where no component of the
/// plane's corner, width and height and of the eye is above `size`, each
/// component of the direction lies within one part in 2^18 of `size` from
/// the exact `corner + width * s + height * t - eye`.
pub proof fn lemma_direction_is_affine(c: Camera, s: Binary32, t: Binary32, size: int)
    requires
        within_size(c.lower_left_corner, size),
        within_size(c.horizontal, size),
        within_size(c.vertical, size),
        within_size(c.origin, size),
        on_plane(s),
        on_plane(t),
        pow2(23) <= size <= pow2(270),
    ensures
        c.spec_direction_from_camera(s, t).is_finite(),
        0x4_0000 * abs(
            c.spec_direction_from_camera(s, t).x.scaled() * unit_scale() - exact_aim(
                c.lower_left_corner.x,
                c.horizontal.x,
                c.vertical.x,
                c.origin.x,
                s,
                t,
            ),
        ) <= size * unit_scale(),
        0x4_0000 * abs(
            c.spec_direction_from_camera(s, t).y.scaled() * unit_scale() - exact_aim(
                c.lower_left_corner.y,
                c.horizontal.y,
                c.vertical.y,
                c.origin.y,
                s,
                t,
            ),
        ) <= size * unit_scale(),
        0x4_0000 * abs(
            c.spec_direction_from_camera(s, t).z.scaled() * unit_scale() - exact_aim(
                c.lower_left_corner.z,
                c.horizontal.z,
                c.vertical.z,
                c.origin.z,
                s,
                t,
            ),
        ) <= size * unit_scale(),
{
    lemma_aim_component(
        c.lower_left_corner.x,
        c.horizontal.x,
        c.vertical.x,
        c.origin.x,
        s,
        t,
        size,
    );
    lemma_aim_component(
        c.lower_left_corner.y,
        c.horizontal.y,
        c.vertical.y,
        c.origin.y,
        s,
        t,
        size,
    );
    lemma_aim_component(
        c.lower_left_corner.z,
        c.horizontal.z,
        c.vertical.z,
        c.origin.z,
        s,
        t,
        size,
    );
}

/// Through a pinhole every ray of a pixel has the direction that its place
/// on the image plane gives, whatever was drawn for the lens: the
/// direction of the ray is, by value, the one that is affine in the place
/// up to rounding.
pub proof fn lemma_pinhole_direction_is_affine(
    c: Camera,
    s: Binary32,
    t: Binary32,
    lens: Vec3f32,
    size: int,
)
    requires
        c.lens_radius.is_zero(),
        c.u.is_finite(),
        c.v.is_finite(),
        lens.is_finite(),
        within_size(c.lower_left_corner, size),
        within_size(c.horizontal, size),
        within_size(c.vertical, size),
        within_size(c.origin, size),
        on_plane(s),
        on_plane(t),
        pow2(23) <= size <= pow2(270),
    ensures
        c.spec_ray_through(s, t, lens).b.is_finite(),
        c.spec_ray_through(s, t, lens).b.x.scaled() == c.spec_direction_from_camera(s, t).x.scaled(),
        c.spec_ray_through(s, t, lens).b.y.scaled() == c.spec_direction_from_camera(s, t).y.scaled(),
        c.spec_ray_through(s, t, lens).b.z.scaled() == c.spec_direction_from_camera(s, t).z.scaled(),
{
    lemma_direction_is_affine(c, s, t, size);
    lemma_pinhole_ignores_lens(c, s, t, lens);
    let aim = c.spec_direction_from_camera(s, t);
    let b = c.spec_ray_through(s, t, lens).b;
    crate::binary32::lemma_magnitude_order(b.x.abs_bits(), aim.x.abs_bits());
    crate::binary32::lemma_magnitude_order(b.y.abs_bits(), aim.y.abs_bits());
    crate::binary32::lemma_magnitude_order(b.z.abs_bits(), aim.z.abs_bits());
}

} // verus!
