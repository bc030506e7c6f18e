//! A ray that points away from a sphere misses it.

use vstd::prelude::*;
use vstd::arithmetic::power2::*;
use crate::binary32::{
    Binary32, magnitude_of, binade_of, lemma_magnitude_split, lemma_magnitude_linear,
    lemma_magnitude_order, unit_scale, INFINITY_BITS,
};
use crate::rounding::{
    nearest, nearest_root, lemma_rounding_exists, lemma_rounding_monotone, lemma_rounds_held,
    lemma_pow2_le,
};
use crate::accuracy::{
    lemma_rounding_finite, lemma_root_rounding_exists, lemma_root_rounding_monotone,
};
use crate::arith::rounded_sum;
use crate::vec3f::Vec3f32;
use crate::ray::Ray;
use crate::sphere::{
    Sphere, discriminant_spec, near_root_spec, far_root_spec, hit_sphere_spec, closest_hit_spec,
};

verus! {

/// Just below a pattern whose worth is at most 2^(t + 24) units, the
/// patterns lie at most 2^t units apart.
pub proof fn lemma_gap_below(n: int, t: nat)
    requires
        1 <= n,
        magnitude_of(n) <= pow2(t + 24),
    ensures
        magnitude_of(n) - magnitude_of(n - 1) <= pow2(t),
        magnitude_of(n - 1) < magnitude_of(n),
{
    let s = binade_of(n);
    let y = n - s * 0x80_0000;
    let p = pow2(s) as int;
    let m = magnitude_of(n);
    lemma_magnitude_split(n);
    lemma_magnitude_order(n - 1, n);
    lemma_pow2_pos(s);
    lemma_pow2_pos(t);
    lemma2_to64();
    lemma_pow2_adds(24, t);
    if s == 0 || y > 0x80_0000 {
        lemma_magnitude_linear(s, y - 1);
        assert(magnitude_of(n - 1) == m - p) by (nonlinear_arith)
            requires
                magnitude_of(n - 1) == (y - 1) * p,
                m == y * p,
        ;
        if s > t {
            lemma_pow2_le(t + 1, s);
            lemma_pow2_unfold(t + 1);
            assert(m >= 0x80_0000 * p) by (nonlinear_arith)
                requires
                    m == y * p,
                    y >= 0x80_0000,
                    p > 0,
            ;
            if y > 0x80_0000 {
                assert(m > 0x80_0000 * p) by (nonlinear_arith)
                    requires
                        m == y * p,
                        y > 0x80_0000,
                        p > 0,
                ;
            }
        } else {
            lemma_pow2_le(s, t);
        }
    } else {
        let q = pow2((s - 1) as nat) as int;
        lemma_magnitude_linear((s - 1) as nat, 0xff_ffff);
        lemma_pow2_unfold(s);
        lemma_pow2_pos((s - 1) as nat);
        assert(n - 1 == (s - 1) * 0x80_0000 + 0xff_ffff);
        assert(magnitude_of(n - 1) == m - q) by (nonlinear_arith)
            requires
                magnitude_of(n - 1) == 0xff_ffff * q,
                m == 0x80_0000 * p,
                p == 2 * q,
        ;
        if s - 1 > t {
            lemma_pow2_le(t + 1, (s - 1) as nat);
            lemma_pow2_unfold(t + 1);
            assert(m == 0x100_0000 * q) by (nonlinear_arith)
                requires
                    m == 0x80_0000 * p,
                    p == 2 * q,
            ;
        } else {
            lemma_pow2_le((s - 1) as nat, t);
        }
    }
}

/// The square root of the square of a number is not above the number: for
/// a number `b` from 2^-63 to 2^63, whose square neither fades nor runs
/// over, the rounded root of the rounded square is at most `b`.
pub proof fn lemma_root_of_square(b: Binary32)
    requires
        b.is_finite(),
        !b.sign(),
        pow2(86) <= b.scaled() <= pow2(212),
    ensures
        b.spec_mul(b).is_finite(),
        !b.spec_mul(b).sign(),
        b.spec_mul(b).scaled() > 0,
        b.spec_mul(b).spec_sqrt().is_finite(),
        0 <= b.spec_mul(b).spec_sqrt().scaled() <= b.scaled(),
{
    let unit = unit_scale();
    let nb = b.abs_bits();
    let big = b.scaled();
    let s = binade_of(nb);
    let yb = nb - s * 0x80_0000;
    let p = pow2(s) as int;
    let bb = big * big;
    let y = b.spec_mul(b);
    let ny = nearest(bb, unit);
    lemma2_to64();
    lemma_pow2_pos(149);
    lemma_pow2_pos(s);
    lemma_magnitude_split(nb);
    lemma_magnitude_order(0, nb);
    // the binade of `b`
    lemma_pow2_le(24, 86);
    assert(s >= 1);
    assert(big == yb * p);
    lemma_pow2_adds(212, 212);
    lemma_pow2_adds(276, 149);
    lemma_pow2_le(424, 425);
    lemma_pow2_adds(86, 86);
    lemma_pow2_le(150, 172);
    lemma_pow2_adds(1, 149);
    assert(bb <= pow2(212) * pow2(212)) by (nonlinear_arith)
        requires
            bb == big * big,
            0 <= big <= pow2(212),
    ;
    assert(bb >= pow2(86) * pow2(86)) by (nonlinear_arith)
        requires
            bb == big * big,
            big >= pow2(86),
            pow2(86) > 0,
    ;
    lemma_rounding_exists(bb, unit);
    lemma_rounding_finite(ny, bb, unit);
    assert(y == Binary32::compose(false, ny));
    assert(y.abs_bits() == ny);
    let my = magnitude_of(ny);
    lemma_magnitude_order(0, ny);
    // the square is not rounded to zero
    if ny == 0 {
        assert(magnitude_of(0) + magnitude_of(1) == 1);
        assert(false);
    }
    // how large the binade of `b` can be
    if s > 189 {
        lemma_pow2_le(190, s);
        lemma_pow2_adds(23, 190);
        lemma_pow2_unfold(213);
        lemma_pow2_pos(212);
        assert(big >= 0x80_0000 * p) by (nonlinear_arith)
            requires
                big == yb * p,
                yb >= 0x80_0000,
                p > 0,
        ;
        assert(false);
    }
    // the binade of the square: one of two, by the significand of `b`
    let pp = p * p;
    lemma_pow2_adds(s, s);
    let high = bb >= 0x8000_0000_0000 * pp;
    let t: nat = if high {
        (2 * s - 125) as nat
    } else {
        (2 * s - 126) as nat
    };
    assert(2 * s >= 126) by {
        if s < 63 {
            lemma_pow2_le(s, 62);
            lemma2_to64_rest();
            lemma_pow2_le(86, 86);
            assert(big < 0x100_0000 * p) by (nonlinear_arith)
                requires
                    big == yb * p,
                    yb < 0x100_0000,
                    p > 0,
            ;
            lemma_pow2_adds(24, 62);
            assert(false);
        }
    }
    // a power of two that bounds the square
    let top = t + 24;
    let corner: int = (t + 1) as int * 0x80_0000 + 0x80_0000;
    lemma_magnitude_linear(t + 1, 0x80_0000);
    lemma_pow2_adds(23, t + 1);
    assert(magnitude_of(corner) == pow2(top));
    assert(corner <= INFINITY_BITS);
    lemma_rounds_held(corner, unit);
    lemma_pow2_adds(top, 149);
    lemma_pow2_adds(47, 2 * s);
    lemma_pow2_adds(48, 2 * s);
    lemma2_to64_rest();
    assert(bb < 0x1_0000_0000_0000 * pp) by (nonlinear_arith)
        requires
            bb == big * big,
            big == yb * p,
            pp == p * p,
            0 <= yb < 0x100_0000,
            p > 0,
    ;
    assert(bb <= pow2(top) * unit);
    assert(bb * unit <= (magnitude_of(corner) * unit) * unit) by (nonlinear_arith)
        requires
            bb <= magnitude_of(corner) * unit,
            unit > 0,
    ;
    lemma_rounding_monotone(ny, bb, unit, corner, magnitude_of(corner) * unit, unit);
    lemma_magnitude_order(ny, corner);
    lemma_gap_below(ny, t);
    let gap = my - magnitude_of(ny - 1);
    // twice the rounded square is at most twice the square and a gap
    let x = my * unit;
    assert((magnitude_of(ny - 1) + my) * unit <= 2 * bb);
    assert((magnitude_of(ny - 1) + my) * unit == 2 * x - gap * unit) by (nonlinear_arith)
        requires
            x == my * unit,
            gap == my - magnitude_of(ny - 1),
    ;
    assert(gap * unit <= pow2(t) * unit) by (nonlinear_arith)
        requires
            gap <= pow2(t),
            unit > 0,
    ;
    lemma_pow2_adds(t, 149);
    lemma_pow2_adds(23, 2 * s);
    lemma_pow2_adds(24, 2 * s);
    assert(4 * x <= 4 * bb + 2 * pow2(t + 149));
    // the midpoint above `b`, squared, is larger
    let bp = big * p;
    assert(bp >= 0x80_0000 * pp) by (nonlinear_arith)
        requires
            bp == big * p,
            big == yb * p,
            pp == p * p,
            yb >= 0x80_0000,
            p > 0,
    ;
    assert(pp > 0) by (nonlinear_arith)
        requires
            pp == p * p,
            p > 0,
    ;
    let mid = 2 * big + p;
    assert(mid * mid == 4 * bb + 4 * bp + pp) by (nonlinear_arith)
        requires
            mid == 2 * big + p,
            bb == big * big,
            bp == big * p,
            pp == p * p,
    ;
    assert(4 * x < mid * mid);
    // so the rounded root is not above `b`
    lemma_root_rounding_exists(x);
    let nr = nearest_root(x);
    let r = y.spec_sqrt();
    assert(x > 0) by (nonlinear_arith)
        requires
            x == my * unit,
            my > 0,
            unit > 0,
    ;
    if nr > nb {
        let low = magnitude_of(nr - 1) + magnitude_of(nr);
        lemma_magnitude_order(nb, nr - 1);
        lemma_magnitude_order(nb + 1, nr);
        lemma_magnitude_linear(s, yb + 1);
        assert(magnitude_of(nb + 1) == big + p) by (nonlinear_arith)
            requires
                magnitude_of(nb + 1) == (yb + 1) * p,
                big == yb * p,
        ;
        assert(low >= mid);
        assert(low * low >= mid * mid) by (nonlinear_arith)
            requires
                low >= mid,
                mid >= 0,
        ;
        assert(false);
    }
    lemma_magnitude_order(nr, nb);
    lemma_magnitude_order(0, nr);
    assert(r == Binary32::compose(false, nr));
    assert(r.abs_bits() == nr);
}

/// The square root of the square of a number is not below the number
/// either, on the same range: the rounded root of the rounded square of
/// `b` is `b`.
#[verifier::rlimit(40)]
pub proof fn lemma_root_of_square_is_exact(b: Binary32)
    requires
        b.is_finite(),
        !b.sign(),
        pow2(86) <= b.scaled() <= pow2(212),
    ensures
        b.spec_mul(b).is_finite(),
        !b.spec_mul(b).sign(),
        b.spec_mul(b).scaled() > 0,
        b.spec_mul(b).spec_sqrt().is_finite(),
        b.spec_mul(b).spec_sqrt().scaled() == b.scaled(),
{
    lemma_root_of_square(b);
    let unit = unit_scale();
    let nb = b.abs_bits();
    let big = b.scaled();
    let s = binade_of(nb);
    let yb = nb - s * 0x80_0000;
    let p = pow2(s) as int;
    let pp = p * p;
    let bb = big * big;
    let bp = big * p;
    let y = b.spec_mul(b);
    let ny = nearest(bb, unit);
    let my = magnitude_of(ny);
    let x = my * unit;
    lemma2_to64();
    lemma2_to64_rest();
    lemma_pow2_pos(149);
    lemma_pow2_pos(s);
    lemma_magnitude_split(nb);
    lemma_magnitude_order(0, nb);
    lemma_pow2_le(24, 86);
    assert(s >= 1);
    assert(big == yb * p);
    lemma_pow2_adds(212, 212);
    lemma_pow2_adds(276, 149);
    lemma_pow2_le(424, 425);
    assert(bb <= pow2(212) * pow2(212)) by (nonlinear_arith)
        requires
            bb == big * big,
            0 <= big <= pow2(212),
    ;
    lemma_rounding_exists(bb, unit);
    lemma_rounding_finite(ny, bb, unit);
    assert(y == Binary32::compose(false, ny));
    assert(y.abs_bits() == ny);
    lemma_magnitude_order(0, ny);
    assert(my > 0);
    if s > 189 {
        lemma_pow2_le(190, s);
        lemma_pow2_adds(23, 190);
        lemma_pow2_unfold(213);
        lemma_pow2_pos(212);
        assert(big >= 0x80_0000 * p) by (nonlinear_arith)
            requires
                big == yb * p,
                yb >= 0x80_0000,
                p > 0,
        ;
        assert(false);
    }
    if s < 63 {
        lemma_pow2_le(s, 62);
        assert(big < 0x100_0000 * p) by (nonlinear_arith)
            requires
                big == yb * p,
                yb < 0x100_0000,
                p > 0,
        ;
        lemma_pow2_adds(24, 62);
        assert(false);
    }
    lemma_pow2_adds(s, s);
    assert(pp > 0) by (nonlinear_arith)
        requires
            pp == p * p,
            p > 0,
    ;
    assert(bp >= 0x80_0000 * pp) by (nonlinear_arith)
        requires
            bp == big * p,
            big == yb * p,
            pp == p * p,
            yb >= 0x80_0000,
            p > 0,
    ;
    lemma_root_rounding_exists(x);
    let nr = nearest_root(x);
    let r = y.spec_sqrt();
    assert(r == Binary32::compose(false, nr));
    assert(r.abs_bits() == nr);
    if nr < nb {
        let up = magnitude_of(nr) + magnitude_of(nr + 1);
        let below = magnitude_of(nb - 1);
        let low = below + big;
        lemma_magnitude_order(nr, nb - 1);
        lemma_magnitude_order(nr + 1, nb);
        lemma_magnitude_order(nb - 1, nb);
        lemma_magnitude_order(0, nr);
        lemma_magnitude_order(0, nb - 1);
        assert(0 <= up <= low);
        assert(up * up <= low * low) by (nonlinear_arith)
            requires
                0 <= up <= low,
        ;
        assert(4 * x <= up * up);
        if yb == 0x80_0000 {
            // the square of a power of two is a number as it stands
            let c0: int = (2 * s - 126) * 0x80_0000 + 0x80_0000;
            lemma_magnitude_linear((2 * s - 126) as nat, 0x80_0000);
            lemma_pow2_adds(23, (2 * s - 126) as nat);
            lemma_pow2_adds((2 * s - 103) as nat, 149);
            lemma_pow2_adds(46, 2 * s);
            lemma_rounds_held(c0, unit);
            assert(bb == 0x4000_0000_0000 * pp) by (nonlinear_arith)
                requires
                    bb == big * big,
                    big == 0x80_0000 * p,
                    pp == p * p,
            ;
            assert(ny == c0);
            assert(x == bb);
            assert(low * low < 4 * bb) by (nonlinear_arith)
                requires
                    0 <= low < 2 * big,
                    bb == big * big,
            ;
            assert(false);
        } else {
            lemma_magnitude_linear(s, yb - 1);
            assert(below == big - p) by (nonlinear_arith)
                requires
                    below == (yb - 1) * p,
                    big == yb * p,
            ;
            assert(low * low == 4 * bb - 4 * bp + pp) by (nonlinear_arith)
                requires
                    low == 2 * big - p,
                    bb == big * big,
                    bp == big * p,
                    pp == p * p,
            ;
            assert(bp >= 0x80_0001 * pp) by (nonlinear_arith)
                requires
                    bp == big * p,
                    big == yb * p,
                    pp == p * p,
                    yb >= 0x80_0001,
                    p > 0,
            ;
            if x < bb {
                // the rounded square lies below the next power of two, so the
                // step above it is small
                let high = bb >= 0x8000_0000_0000 * pp;
                let t: nat = if high {
                    (2 * s - 125) as nat
                } else {
                    (2 * s - 126) as nat
                };
                lemma_pow2_adds(47, 2 * s);
                lemma_pow2_adds(48, 2 * s);
                lemma_pow2_adds(t + 24, 149);
                assert(bb < 0x1_0000_0000_0000 * pp) by (nonlinear_arith)
                    requires
                        bb == big * big,
                        big == yb * p,
                        pp == p * p,
                        0 <= yb < 0x100_0000,
                        p > 0,
                ;
                assert(x < pow2(t + 24) * unit);
                assert(my < pow2(t + 24)) by (nonlinear_arith)
                    requires
                        x == my * unit,
                        x < pow2(t + 24) * unit,
                        unit > 0,
                ;
                let sy = binade_of(ny);
                let qy = ny - sy * 0x80_0000;
                let py = pow2(sy) as int;
                lemma_magnitude_split(ny);
                lemma_magnitude_linear(sy, qy + 1);
                lemma_pow2_pos(sy);
                if sy > t {
                    lemma_pow2_le(t + 1, sy);
                    lemma_pow2_adds(23, t + 1);
                    assert(my >= 0x80_0000 * py) by (nonlinear_arith)
                        requires
                            my == qy * py,
                            qy >= 0x80_0000,
                            py > 0,
                    ;
                    assert(false);
                }
                lemma_pow2_le(sy, t);
                assert(magnitude_of(ny + 1) == my + py) by (nonlinear_arith)
                    requires
                        magnitude_of(ny + 1) == (qy + 1) * py,
                        my == qy * py,
                ;
                assert(2 * bb <= (my + magnitude_of(ny + 1)) * unit);
                assert((my + magnitude_of(ny + 1)) * unit == 2 * x + py * unit) by (nonlinear_arith)
                    requires
                        x == my * unit,
                        magnitude_of(ny + 1) == my + py,
                ;
                assert(py * unit <= pow2(t) * unit) by (nonlinear_arith)
                    requires
                        py <= pow2(t),
                        unit > 0,
                ;
                lemma_pow2_adds(t, 149);
                lemma_pow2_adds(23, 2 * s);
                lemma_pow2_adds(24, 2 * s);
                assert(4 * x >= 4 * bb - 0x200_0000 * pp);
            }
            assert(false);
        }
    }
    lemma_magnitude_order(nr, nb);
}

/// Whether `x` is a NaN or a number that is not below zero.
pub open spec fn not_below_zero(x: Binary32) -> bool {
    x.is_nan() || x.scaled() >= 0
}

/// Whether `x` is a NaN or a number that is not above zero.
pub open spec fn not_above_zero(x: Binary32) -> bool {
    x.is_nan() || x.scaled() <= 0
}

/// A number with the sign bit clear is not below zero, and a number below
/// zero has it set.
proof fn lemma_sign_and_value(x: Binary32)
    requires
        !x.is_nan(),
    ensures
        !x.sign() ==> x.scaled() >= 0,
        x.sign() ==> x.scaled() <= 0,
        x.scaled() > 0 ==> !x.sign(),
        x.scaled() < 0 ==> x.sign(),
        x.scaled() == 0 <==> x.is_zero(),
{
    lemma_magnitude_order(0, x.abs_bits());
    assert(magnitude_of(0) == 0);
}

/// The product of two numbers that are not below zero is not below zero.
proof fn lemma_product_not_below_zero(a: Binary32, c: Binary32)
    requires
        not_below_zero(a),
        not_below_zero(c),
    ensures
        not_below_zero(a.spec_mul(c)),
{
    let r = a.spec_mul(c);
    if !r.is_nan() {
        lemma_sign_and_value(a);
        lemma_sign_and_value(c);
        lemma_pow2_pos(149);
        if a.is_finite() && c.is_finite() {
            let num = a.magnitude() * c.magnitude();
            lemma_rounding_exists(num, unit_scale());
            let n = nearest(num, unit_scale());
            assert(r == Binary32::compose(a.sign() != c.sign(), n));
            lemma_magnitude_order(0, n);
            if a.sign() != c.sign() {
                assert(num == 0) by (nonlinear_arith)
                    requires
                        num == a.magnitude() * c.magnitude(),
                        a.magnitude() == 0 || c.magnitude() == 0,
                ;
                lemma_rounds_held(0, unit_scale());
                assert(magnitude_of(0) * unit_scale() == 0) by (nonlinear_arith)
                    requires
                        magnitude_of(0) == 0,
                ;
                assert(n == 0);
            }
        } else {
            lemma_magnitude_order(0, INFINITY_BITS as int);
        }
    }
}

/// The sum of two numbers whose sign bits are clear has its sign bit clear.
proof fn lemma_sum_keeps_sign_clear(a: Binary32, c: Binary32)
    requires
        a.is_nan() || !a.sign(),
        c.is_nan() || !c.sign(),
    ensures
        a.spec_add(c).is_nan() || !a.spec_add(c).sign(),
{
    let r = a.spec_add(c);
    if !r.is_nan() && a.is_finite() && c.is_finite() {
        lemma_sign_and_value(a);
        lemma_sign_and_value(c);
        let x = a.scaled() + c.scaled();
        if x > 0 {
            lemma_rounding_exists(x, 1);
        }
    }
}

/// The squared length of a vector has its sign bit clear.
proof fn lemma_squared_length_sign(d: Vec3f32)
    ensures
        d.spec_dot(d).is_nan() || !d.spec_dot(d).sign(),
{
    lemma_square_sign(d.x);
    lemma_square_sign(d.y);
    lemma_square_sign(d.z);
    lemma_sum_keeps_sign_clear(d.x.spec_mul(d.x), d.y.spec_mul(d.y));
    lemma_sum_keeps_sign_clear(d.x.spec_mul(d.x).spec_add(d.y.spec_mul(d.y)), d.z.spec_mul(d.z));
}

/// A square has its sign bit clear.
proof fn lemma_square_sign(x: Binary32)
    ensures
        x.spec_mul(x).is_nan() || !x.spec_mul(x).sign(),
{
    if x.is_finite() {
        lemma_pow2_pos(149);
        lemma_rounding_exists(x.magnitude() * x.magnitude(), unit_scale());
    }
}

/// A number that is not above zero, divided by one whose sign bit is
/// clear, is not above zero.
proof fn lemma_quotient_not_above_zero(x: Binary32, a: Binary32)
    requires
        x.is_finite(),
        x.scaled() <= 0,
        a.is_nan() || !a.sign(),
    ensures
        not_above_zero(x.spec_div(a)),
{
    let r = x.spec_div(a);
    if !r.is_nan() {
        lemma_sign_and_value(x);
        lemma_sign_and_value(a);
        lemma_magnitude_order(0, INFINITY_BITS as int);
        lemma_pow2_pos(149);
        if !a.is_infinite() && !a.is_zero() && !x.is_zero() {
            let num = x.magnitude() * unit_scale();
            lemma_rounding_exists(num, a.magnitude());
            let n = nearest(num, a.magnitude());
            assert(r == Binary32::compose(true, n));
            lemma_magnitude_order(0, n);
        }
    }
}

/// A ray that points away from a sphere misses it.
///
/// With `oc` the offset of the ray's origin from the centre: if the dot
/// product of `oc` and the direction is not negative (the ray points away),
/// `oc`'s squared length less the squared radius is not negative (the ray
/// starts outside), and the range starts at zero or above, then no hit is
/// found. The dot product must be zero or from 2^-63 to 2^63, so that its
/// square is neither rounded off nor runs over.
pub proof fn lemma_ray_pointing_away_misses(
    center: Vec3f32,
    radius: Binary32,
    r: Ray,
    tmin: Binary32,
    tmax: Binary32,
)
    requires
        (Binary32 { bits: 0 }).spec_le(tmin),
        (Binary32 { bits: 0 }).spec_le(
            r.a.spec_sub(center).spec_dot(r.a.spec_sub(center)).spec_sub(radius.spec_mul(radius)),
        ),
        r.a.spec_sub(center).spec_dot(r.b).is_zero() || (r.a.spec_sub(center).spec_dot(
            r.b,
        ).is_finite() && !r.a.spec_sub(center).spec_dot(r.b).sign() && pow2(86)
            <= r.a.spec_sub(center).spec_dot(r.b).scaled() <= pow2(212)),
    ensures
        hit_sphere_spec(center, radius, r, tmin, tmax) is None,
{
    let zero = Binary32 { bits: 0 };
    let oc = r.a.spec_sub(center);
    let a = r.b.spec_dot(r.b);
    let b = oc.spec_dot(r.b);
    let c = oc.spec_dot(oc).spec_sub(radius.spec_mul(radius));
    let bb = b.spec_mul(b);
    let ac = a.spec_mul(c);
    let disc = bb.spec_sub(ac);
    assert(disc == discriminant_spec(center, radius, r));
    assert(magnitude_of(0) == 0);
    lemma_squared_length_sign(r.b);
    lemma_sign_and_value(tmin);
    lemma_sign_and_value(c);
    if !a.is_nan() {
        lemma_sign_and_value(a);
    }
    lemma_product_not_below_zero(a, c);
    if zero.spec_lt(disc) {
        lemma_sign_and_value(disc);
        lemma_pow2_pos(149);
        // the discriminant is a number above zero, so `a * c` is finite
        assert(!ac.is_nan());
        lemma_sign_and_value(ac);
        lemma_sign_and_value(b);
        if b.is_zero() {
            lemma_rounding_exists(0, unit_scale());
            lemma_rounds_held(0, unit_scale());
            assert(b.magnitude() * b.magnitude() == 0) by (nonlinear_arith)
                requires
                    b.magnitude() == 0,
            ;
            assert(magnitude_of(0) * unit_scale() == 0) by (nonlinear_arith)
                requires
                    magnitude_of(0) == 0,
            ;
            assert(bb.is_zero());
            lemma_sign_and_value(bb);
            if ac.is_finite() {
                let x = bb.scaled() + ac.spec_neg().scaled();
                assert(x <= 0);
                if x < 0 {
                    lemma_rounding_exists(-x, 1);
                    lemma_magnitude_order(0, nearest(-x, 1));
                }
            } else {
                lemma_magnitude_order(0, INFINITY_BITS as int);
            }
            assert(false);
        }
        lemma_root_of_square(b);
        lemma_sign_and_value(bb);
        if !ac.is_finite() {
            lemma_magnitude_order(0, INFINITY_BITS as int);
            assert(false);
        }
        // the discriminant is at most the square of `b`
        let x = bb.scaled() - ac.scaled();
        assert(disc == rounded_sum(bb.scaled() + ac.spec_neg().scaled(), bb.sign() && ac.spec_neg(
        ).sign()));
        assert(x > 0) by {
            if x < 0 {
                lemma_rounding_exists(-x, 1);
                lemma_magnitude_order(0, nearest(-x, 1));
            }
        }
        let nd = nearest(x, 1);
        lemma_rounding_exists(x, 1);
        lemma_rounds_held(bb.abs_bits(), 1);
        lemma_rounding_monotone(nd, x, 1, bb.abs_bits(), magnitude_of(bb.abs_bits()) * 1, 1);
        assert(disc == Binary32::compose(false, nd));
        assert(disc.abs_bits() == nd);
        lemma_magnitude_order(nd, bb.abs_bits());
        // so its root is at most the root of that square, which is at most `b`
        let root = disc.spec_sqrt();
        let whole = bb.spec_sqrt();
        let nr = nearest_root(disc.magnitude() * unit_scale());
        let nw = nearest_root(bb.magnitude() * unit_scale());
        lemma_root_rounding_exists(disc.magnitude() * unit_scale());
        lemma_root_rounding_exists(bb.magnitude() * unit_scale());
        assert(disc.magnitude() * unit_scale() <= bb.magnitude() * unit_scale())
            by (nonlinear_arith)
            requires
                disc.magnitude() <= bb.magnitude(),
                unit_scale() > 0,
        ;
        lemma_root_rounding_monotone(
            nr,
            disc.magnitude() * unit_scale(),
            nw,
            bb.magnitude() * unit_scale(),
        );
        assert(root == Binary32::compose(false, nr));
        assert(whole == Binary32::compose(false, nw));
        lemma_magnitude_order(nr, nw);
        lemma_magnitude_order(0, nr);
        assert(root.is_finite() && 0 <= root.scaled() <= b.scaled());
        // both solutions are not above zero
        let less = b.spec_neg().spec_sub(root);
        let more = b.spec_neg().spec_add(root);
        let xl = -b.scaled() - root.scaled();
        let xm = -b.scaled() + root.scaled();
        assert(less == rounded_sum(
            b.spec_neg().scaled() + root.spec_neg().scaled(),
            b.spec_neg().sign() && root.spec_neg().sign(),
        ));
        lemma_pow2_le(213, 276);
        lemma_pow2_unfold(213);
        lemma_pow2_pos(276);
        lemma_rounding_exists(-xl, 1);
        lemma_rounding_exists(-xm, 1);
        assert(pow2(276) * 1 == pow2(276));
        lemma_rounding_finite(nearest(-xl, 1), -xl, 1);
        lemma_rounding_finite(nearest(-xm, 1), -xm, 1);
        lemma_magnitude_order(0, nearest(-xl, 1));
        lemma_magnitude_order(0, nearest(-xm, 1));
        assert(less.is_finite() && less.scaled() <= 0);
        assert(more.is_finite() && more.scaled() <= 0);
        lemma_quotient_not_above_zero(less, a);
        lemma_quotient_not_above_zero(more, a);
        assert(less.spec_div(a) == near_root_spec(center, radius, r));
        assert(more.spec_div(a) == far_root_spec(center, radius, r));
    }
}

/// Where no sphere of the scene is hit on its own, the scan finds nothing.
pub proof fn lemma_nothing_to_find(
    r: Ray,
    spheres: Seq<Sphere>,
    tmin: Binary32,
    tmax: Binary32,
    n: nat,
)
    requires
        n <= spheres.len(),
        forall|j: int|
            0 <= j < n ==> hit_sphere_spec(
                (#[trigger] spheres[j]).center,
                spheres[j].radius,
                r,
                tmin,
                tmax,
            ) is None,
    ensures
        closest_hit_spec(r, spheres, tmin, tmax, n) is None,
    decreases n,
{
    if n > 0 {
        lemma_nothing_to_find(r, spheres, tmin, tmax, (n - 1) as nat);
        assert(hit_sphere_spec(spheres[n - 1].center, spheres[n - 1].radius, r, tmin, tmax) is None);
    }
}

} // verus!
