//! What is written of a channel is never negative, and is a byte where the
//! channel is a colour from zero to one.

use vstd::prelude::*;
use vstd::arithmetic::power2::*;
use vstd::arithmetic::div_mod::*;
use crate::binary32::{
    Binary32, magnitude_of, lemma_magnitude_order, lemma_magnitude_linear, lemma_one_is_unit_scale,
    unit_scale, INFINITY_BITS,
};
use crate::rounding::{
    nearest, nearest_root, lemma_rounding_exists, lemma_rounding_monotone, lemma_rounds_held,
};
use crate::accuracy::{
    lemma_root_rounding_exists, lemma_root_rounding_monotone, lemma_root_rounds_held,
};
use crate::vec3f::Vec3f32;
use crate::sphere::Sphere;
use crate::camera::Camera;
use crate::render::{
    quantize_spec, pixel_spec, light_sum_spec, path_color_spec, PathChanceView, CHANNEL_SCALE_BITS,
};

verus! {

/// What is written of the mean `x` of a channel: its square root, scaled by
/// 255.99 and cut off to a whole number.
pub open spec fn written_spec(x: Binary32) -> int {
    x.spec_sqrt().spec_mul(Binary32 { bits: CHANNEL_SCALE_BITS }).spec_to_i32()
}

/// The scale is 255.99 to the nearest: 16776561 * 2^133 units, between 255
/// and 256.
proof fn lemma_scale()
    ensures
        (Binary32 { bits: CHANNEL_SCALE_BITS }).magnitude() == 16776561 * pow2(133),
        (Binary32 { bits: CHANNEL_SCALE_BITS }).is_finite(),
        !(Binary32 { bits: CHANNEL_SCALE_BITS }).sign(),
        (Binary32 { bits: CHANNEL_SCALE_BITS }).magnitude() / unit_scale() == 255,
{
    lemma_magnitude_linear(133, 16776561);
    lemma2_to64();
    lemma_pow2_adds(16, 133);
    lemma_pow2_pos(133);
    let p = pow2(133) as int;
    let m = 16776561 * p;
    let unit = unit_scale();
    assert(unit == 65536 * p);
    lemma_fundamental_div_mod_converse(m, unit, 255, 64881 * p);
}

/// What is written of a channel is not negative, whatever the channel; and
/// it is at most 255 where the channel's mean is a NaN or at most one.
pub proof fn lemma_written_is_a_byte(x: Binary32)
    ensures
        written_spec(x) >= 0,
        x.is_nan() || x.scaled() <= unit_scale() ==> written_spec(x) <= 255,
{
    let unit = unit_scale();
    let scale = Binary32 { bits: CHANNEL_SCALE_BITS };
    let r = x.spec_sqrt();
    let g = r.spec_mul(scale);
    lemma_scale();
    lemma_pow2_pos(149);
    lemma_pow2_pos(133);
    lemma_one_is_unit_scale();
    assert(magnitude_of(0) == 0);
    lemma_magnitude_order(0, x.abs_bits());
    lemma_magnitude_order(0, scale.abs_bits());
    lemma_magnitude_order(0, INFINITY_BITS as int);
    // the root has its sign bit clear, or is a zero or a NaN
    if !x.is_nan() && !x.is_zero() && !x.sign() && !x.is_infinite() {
        lemma_root_rounding_exists(x.magnitude() * unit);
    }
    assert(r.is_nan() || r.is_zero() || !r.sign());
    lemma_magnitude_order(0, r.abs_bits());
    // so has what is scaled
    if r.is_finite() {
        lemma_rounding_exists(r.magnitude() * scale.magnitude(), unit);
        if r.is_zero() {
            lemma_rounds_held(0, unit);
            assert(r.magnitude() * scale.magnitude() == 0) by (nonlinear_arith)
                requires
                    r.magnitude() == 0,
            ;
            assert(magnitude_of(0) * unit == 0) by (nonlinear_arith)
                requires
                    magnitude_of(0) == 0,
            ;
        }
    }
    assert(g.is_nan() || g.is_zero() || !g.sign());
    lemma_magnitude_order(0, g.abs_bits());
    assert(g.magnitude() >= 0);
    lemma_div_nonneg(g.magnitude(), unit);
    assert(written_spec(x) >= 0) by {
        if g.is_zero() {
            assert(g.magnitude() / unit == 0);
        }
    }
    if !x.is_nan() && x.scaled() <= unit {
        if !x.is_zero() && !x.sign() {
            // the root of at most one is at most one
            let one = 0x3f80_0000int;
            let nr = nearest_root(x.magnitude() * unit);
            lemma_magnitude_order(one, INFINITY_BITS as int);
            lemma_magnitude_order(x.abs_bits(), INFINITY_BITS as int);
            lemma_root_rounding_exists(x.magnitude() * unit);
            lemma_root_rounds_held(one);
            assert(x.magnitude() * unit <= magnitude_of(one) * magnitude_of(one))
                by (nonlinear_arith)
                requires
                    x.magnitude() <= unit,
                    magnitude_of(one) == unit,
                    unit > 0,
            ;
            lemma_root_rounding_monotone(
                nr,
                x.magnitude() * unit,
                one,
                magnitude_of(one) * magnitude_of(one),
            );
            lemma_magnitude_order(nr, one);
            assert(r == Binary32::compose(false, nr));
            assert(r.magnitude() <= unit);
            // scaled, it is at most the scale
            let ns = scale.abs_bits();
            let ng = nearest(r.magnitude() * scale.magnitude(), unit);
            lemma_rounds_held(ns, unit);
            assert((r.magnitude() * scale.magnitude()) * unit <= (magnitude_of(ns) * unit) * unit)
                by (nonlinear_arith)
                requires
                    0 <= r.magnitude() <= unit,
                    scale.magnitude() == magnitude_of(ns),
                    magnitude_of(ns) >= 0,
                    unit > 0,
            ;
            lemma_rounding_monotone(
                ng,
                r.magnitude() * scale.magnitude(),
                unit,
                ns,
                magnitude_of(ns) * unit,
                unit,
            );
            lemma_magnitude_order(ng, ns);
            assert(g == Binary32::compose(false, ng));
            assert(g.magnitude() <= scale.magnitude());
            lemma_div_is_ordered(g.magnitude(), scale.magnitude(), unit);
        } else {
            assert(g.is_nan() || g.is_zero());
            if g.is_zero() {
                assert(g.magnitude() / unit == 0);
            }
        }
    }
}

/// No channel of a pixel is negative, whatever the colours were; and a pixel
/// whose mean colour has no channel above one is made of bytes.
pub proof fn lemma_pixel_is_bytes(sum: Vec3f32, ns: u32)
    ensures
        quantize_spec(sum, ns).r >= 0,
        quantize_spec(sum, ns).g >= 0,
        quantize_spec(sum, ns).b >= 0,
        ({
            let mean = sum.spec_shrink(Binary32::spec_from_u32(ns));
            (mean.x.is_nan() || mean.x.scaled() <= unit_scale()) && (mean.y.is_nan()
                || mean.y.scaled() <= unit_scale()) && (mean.z.is_nan() || mean.z.scaled()
                <= unit_scale())
        }) ==> quantize_spec(sum, ns).r <= 255 && quantize_spec(sum, ns).g <= 255 && quantize_spec(
            sum,
            ns,
        ).b <= 255,
{
    let mean = sum.spec_shrink(Binary32::spec_from_u32(ns));
    lemma_written_is_a_byte(mean.x);
    lemma_written_is_a_byte(mean.y);
    lemma_written_is_a_byte(mean.z);
    lemma_whole_range(mean.x.spec_sqrt().spec_mul(Binary32 { bits: CHANNEL_SCALE_BITS }));
    lemma_whole_range(mean.y.spec_sqrt().spec_mul(Binary32 { bits: CHANNEL_SCALE_BITS }));
    lemma_whole_range(mean.z.spec_sqrt().spec_mul(Binary32 { bits: CHANNEL_SCALE_BITS }));
}

/// A number cut off to a whole number is within the range of `i32`.
proof fn lemma_whole_range(x: Binary32)
    ensures
        -0x8000_0000 <= x.spec_to_i32() <= 0x7fff_ffff,
{
    lemma_pow2_pos(149);
    lemma_magnitude_order(0, x.abs_bits());
    lemma_div_nonneg(x.magnitude(), unit_scale());
}

/// A quotient of numbers that are not negative is not negative.
proof fn lemma_div_nonneg(x: int, d: int)
    requires
        0 <= x,
        0 < d,
    ensures
        0 <= x / d,
{
    lemma_div_pos_is_pos(x, d);
}

/// Whether `x` is a NaN or at most `k`.
pub open spec fn at_most(x: Binary32, k: int) -> bool {
    x.is_nan() || x.scaled() <= k * unit_scale()
}

/// Whether no channel of the colour `v` is above `k`.
pub open spec fn colour_at_most(v: Vec3f32, k: int) -> bool {
    at_most(v.x, k) && at_most(v.y, k) && at_most(v.z, k)
}

/// A whole number up to 2^24 is a binary32 number as it stands.
pub proof fn lemma_whole_number_exact(k: u32)
    requires
        k <= 0x100_0000,
    ensures
        Binary32::spec_from_u32(k).is_finite(),
        !Binary32::spec_from_u32(k).sign(),
        Binary32::spec_from_u32(k).scaled() == k * unit_scale(),
{
    let unit = unit_scale();
    let x = k * unit;
    let n = nearest(x, 1);
    lemma_pow2_pos(149);
    lemma2_to64();
    assert(magnitude_of(0) == 0);
    assert(x >= 0) by (nonlinear_arith)
        requires
            x == k * unit,
            unit > 0,
    ;
    lemma_rounding_exists(x, 1);
    lemma_magnitude_order(0, n);
    // the number is at most 2^173 units
    let corner = 151 * 0x80_0000int;
    lemma_magnitude_linear(150, 0x80_0000);
    lemma_pow2_adds(23, 150);
    lemma_pow2_adds(24, 149);
    lemma_rounds_held(corner, 1);
    assert(x <= pow2(173)) by (nonlinear_arith)
        requires
            x == k * unit,
            k <= 0x100_0000,
            pow2(173) == 0x100_0000 * unit,
            unit > 0,
    ;
    lemma_rounding_monotone(n, x, 1, corner, magnitude_of(corner) * 1, 1);
    lemma_magnitude_order(n, corner);
    let s = crate::binary32::binade_of(n);
    let y = n - s * 0x80_0000;
    let p = pow2(s) as int;
    let m = magnitude_of(n);
    crate::binary32::lemma_magnitude_split(n);
    lemma_pow2_pos(s);
    assert(s <= 150);
    lemma_magnitude_linear(s, y + 1);
    assert(magnitude_of(n + 1) == m + p) by (nonlinear_arith)
        requires
            magnitude_of(n + 1) == (y + 1) * p,
            m == y * p,
    ;
    if s == 150 {
        // the top corner itself
        assert(n == corner);
        lemma_magnitude_linear(149, 0xff_ffff);
        lemma_pow2_unfold(150);
        assert(magnitude_of(n - 1) == pow2(173) - unit) by (nonlinear_arith)
            requires
                magnitude_of(n - 1) == 0xff_ffff * pow2(149),
                pow2(173) == 0x100_0000 * unit,
                unit == pow2(149),
        ;
        if k < 0x100_0000 {
            assert(x <= pow2(173) - unit) by (nonlinear_arith)
                requires
                    x == k * unit,
                    k + 1 <= 0x100_0000,
                    pow2(173) == 0x100_0000 * unit,
            ;
            assert(false);
        }
    } else {
        // the number is a whole multiple of the step at its rounding
        let lift = pow2((149 - s) as nat) as int;
        lemma_pow2_adds((149 - s) as nat, s);
        lemma_pow2_pos((149 - s) as nat);
        let q = k * lift;
        assert(x == q * p) by (nonlinear_arith)
            requires
                x == k * unit,
                unit == lift * p,
                q == k * lift,
        ;
        if q > y {
            assert(q * p >= (y + 1) * p) by (nonlinear_arith)
                requires
                    q >= y + 1,
                    p > 0,
            ;
            assert(false);
        }
        if q < y {
            assert(n > 0);
            assert(q * p <= (y - 1) * p) by (nonlinear_arith)
                requires
                    q <= y - 1,
                    p > 0,
            ;
            assert((y - 1) * p == m - p) by (nonlinear_arith)
                requires
                    m == y * p,
            ;
            lemma_pow2_adds(24, s);
            assert(m <= pow2(s + 24)) by (nonlinear_arith)
                requires
                    m == y * p,
                    y <= 0x100_0000,
                    pow2(s + 24) == 0x100_0000 * p,
                    p > 0,
            ;
            crate::away::lemma_gap_below(n, s);
            assert(false);
        }
        assert(x == m) by (nonlinear_arith)
            requires
                x == q * p,
                m == y * p,
                q == y,
        ;
    }
    assert(Binary32::spec_from_u32(k) == Binary32::compose(false, n));
    lemma_magnitude_order(n, INFINITY_BITS as int);
}

/// Adding a colour of at most one to a sum of at most `k` gives a sum of at
/// most `k + 1`.
proof fn lemma_sum_stays_below(s: Binary32, c: Binary32, k: u32)
    requires
        k < 0x100_0000,
        at_most(s, k as int),
        at_most(c, 1),
    ensures
        at_most(s.spec_add(c), k + 1),
{
    let unit = unit_scale();
    let r = s.spec_add(c);
    lemma_pow2_pos(149);
    lemma_magnitude_order(0, s.abs_bits());
    lemma_magnitude_order(0, c.abs_bits());
    lemma_magnitude_order(0, INFINITY_BITS as int);
    assert(magnitude_of(0) == 0);
    assert((k + 1) * unit == k * unit + unit) by (nonlinear_arith);
    assert(1 * unit == unit);
    assert((k + 1) * unit >= 0) by (nonlinear_arith)
        requires
            k >= 0,
            unit > 0,
    ;
    if !r.is_nan() {
        if s.is_finite() && c.is_finite() {
            let x = s.scaled() + c.scaled();
            if x > 0 {
                let n = nearest(x, 1);
                lemma_rounding_exists(x, 1);
                lemma_whole_number_exact((k + 1) as u32);
                let top = Binary32::spec_from_u32((k + 1) as u32);
                lemma_rounds_held(top.abs_bits(), 1);
                lemma_rounding_monotone(
                    n,
                    x,
                    1,
                    top.abs_bits(),
                    magnitude_of(top.abs_bits()) * 1,
                    1,
                );
                lemma_magnitude_order(n, top.abs_bits());
                lemma_magnitude_order(0, n);
            } else if x < 0 {
                lemma_rounding_exists(-x, 1);
                lemma_magnitude_order(0, nearest(-x, 1));
            }
        }
    }
}

/// The mean of a sum of at most `ns` is at most one.
proof fn lemma_mean_at_most_one(x: Binary32, ns: u32)
    requires
        ns <= 0x100_0000,
        at_most(x, ns as int),
    ensures
        at_most(x.spec_div(Binary32::spec_from_u32(ns)), 1),
{
    let unit = unit_scale();
    let n = Binary32::spec_from_u32(ns);
    let r = x.spec_div(n);
    lemma_whole_number_exact(ns);
    lemma_pow2_pos(149);
    lemma_one_is_unit_scale();
    lemma_magnitude_order(0, x.abs_bits());
    lemma_magnitude_order(0, n.abs_bits());
    lemma_magnitude_order(0, INFINITY_BITS as int);
    assert(magnitude_of(0) == 0);
    assert(1 * unit == unit);
    assert(ns * unit >= 0) by (nonlinear_arith)
        requires
            ns >= 0,
            unit > 0,
    ;
    lemma_magnitude_order(n.abs_bits(), INFINITY_BITS as int);
    if !r.is_nan() && !x.is_zero() && !n.is_zero() && x.is_finite() {
        let num = x.magnitude() * unit;
        let den = n.magnitude();
        let q = nearest(num, den);
        lemma_rounding_exists(num, den);
        lemma_magnitude_order(0, q);
        assert(r == Binary32::compose(x.sign(), q));
    }
    if !r.is_nan() && !x.sign() && !x.is_zero() && !n.is_zero() && x.is_finite() {
        let one = 0x3f80_0000int;
        let num = x.magnitude() * unit;
        let den = n.magnitude();
        let q = nearest(num, den);
        lemma_rounds_held(one, den);
        assert(num * den <= (magnitude_of(one) * den) * den) by (nonlinear_arith)
            requires
                num == x.magnitude() * unit,
                x.magnitude() <= den,
                magnitude_of(one) == unit,
                den > 0,
                unit > 0,
        ;
        lemma_rounding_monotone(q, num, den, one, magnitude_of(one) * den, den);
        lemma_magnitude_order(q, one);
        assert(r == Binary32::compose(false, q));
    }
}

/// Whether the colour along every path is at most one in every channel.
pub open spec fn paths_at_most_one(
    camera: Camera,
    spheres: Seq<Sphere>,
    i: u32,
    j: u32,
    nx: u32,
    ny: u32,
    chances: Seq<PathChanceView>,
) -> bool {
    forall|k: int|
        0 <= k < chances.len() ==> colour_at_most(
            path_color_spec(camera, spheres, i, j, nx, ny, #[trigger] chances[k]),
            1,
        )
}

/// The sum of the first `n` colours, each at most one, is at most `n`.
proof fn lemma_light_sum_below(
    camera: Camera,
    spheres: Seq<Sphere>,
    i: u32,
    j: u32,
    nx: u32,
    ny: u32,
    chances: Seq<PathChanceView>,
    n: nat,
)
    requires
        n <= chances.len() <= 0x100_0000,
        paths_at_most_one(camera, spheres, i, j, nx, ny, chances),
    ensures
        colour_at_most(light_sum_spec(camera, spheres, i, j, nx, ny, chances, n), n as int),
    decreases n,
{
    if n == 0 {
        assert(magnitude_of(0) == 0);
        assert(0 * unit_scale() == 0);
    } else {
        lemma_light_sum_below(camera, spheres, i, j, nx, ny, chances, (n - 1) as nat);
        let before = light_sum_spec(camera, spheres, i, j, nx, ny, chances, (n - 1) as nat);
        let c = path_color_spec(camera, spheres, i, j, nx, ny, chances[n - 1]);
        lemma_sum_stays_below(before.x, c.x, (n - 1) as u32);
        lemma_sum_stays_below(before.y, c.y, (n - 1) as u32);
        lemma_sum_stays_below(before.z, c.z, (n - 1) as u32);
    }
}

/// Colours from zero to one give bytes: where the colour along every path
/// through a pixel is at most one in every channel, and there are at most
/// 2^24 paths, every channel of the pixel is from 0 to 255.
pub proof fn lemma_pixel_of_colours_is_bytes(
    camera: Camera,
    spheres: Seq<Sphere>,
    i: u32,
    j: u32,
    nx: u32,
    ny: u32,
    chances: Seq<PathChanceView>,
)
    requires
        chances.len() <= 0x100_0000,
        paths_at_most_one(camera, spheres, i, j, nx, ny, chances),
    ensures
        0 <= pixel_spec(camera, spheres, i, j, nx, ny, chances).r <= 255,
        0 <= pixel_spec(camera, spheres, i, j, nx, ny, chances).g <= 255,
        0 <= pixel_spec(camera, spheres, i, j, nx, ny, chances).b <= 255,
{
    let ns = chances.len() as u32;
    let sum = light_sum_spec(camera, spheres, i, j, nx, ny, chances, chances.len());
    lemma_light_sum_below(camera, spheres, i, j, nx, ny, chances, chances.len());
    lemma_mean_at_most_one(sum.x, ns);
    lemma_mean_at_most_one(sum.y, ns);
    lemma_mean_at_most_one(sum.z, ns);
    assert(1 * unit_scale() == unit_scale());
    lemma_pixel_is_bytes(sum, ns);
}

} // verus!
