//! A ray aimed at the centre of a sphere meets it where the distance to
//! the centre, less the radius, has been covered.
//!
//! Every rounded result is followed as a number near an exact one, by
//! parts in 2^30, from the squared length of the direction to the
//! parameter of the hit.

use vstd::prelude::*;
use vstd::arithmetic::power2::*;
use crate::binary32::{Binary32, unit_scale, lemma_neg_negates};
use crate::accuracy::{
    abs, within_scale, lemma_mul_error, lemma_sub_error, lemma_div_error, lemma_sqrt_error,
};
use crate::rounding::lemma_pow2_le;
use crate::vec3f::Vec3f32;
use crate::ray::Ray;
use crate::unit_length::{sum_of_squares, lemma_squared_length_near};
use crate::sphere::{
    discriminant_spec, near_root_spec, hit_sphere_spec, in_range, record_at,
};
use crate::daylight::{plain, lemma_sum_at_least};

verus! {

/// Whether `x` lies within `p` parts in 2^30 of `y`.
pub open spec fn near(x: int, y: int, p: int) -> bool {
    0x4000_0000 * abs(x - y) <= p * abs(y)
}

/// A number near a number that is near a third is near the third.
proof fn lemma_near_chain(x: int, y: int, z: int, p: int, q: int)
    requires
        near(x, y, p),
        near(y, z, q),
        0 <= p,
        0 <= q,
        p * q <= 0x4000_0000,
    ensures
        near(x, z, p + q + 1),
{
    let n: int = 0x4000_0000;
    let a = abs(x - y);
    let b = abs(y - z);
    let c = abs(z);
    let yy = abs(y);
    assert(yy <= c + b);
    assert(p * yy <= p * c + p * b) by (nonlinear_arith)
        requires
            yy <= c + b,
            0 <= p,
    ;
    assert(n * (p * b) <= n * c) by (nonlinear_arith)
        requires
            n * b <= q * c,
            0 <= p,
            0 <= c,
            p * q <= n,
            n > 0,
    ;
    assert(p * b <= c) by (nonlinear_arith)
        requires
            n * (p * b) <= n * c,
            n > 0,
    ;
    assert((p + q + 1) * c == p * c + q * c + c) by (nonlinear_arith);
}

/// The product of two numbers near two others is near their product.
proof fn lemma_near_product(x: int, xx: int, y: int, yy: int, p: int, q: int)
    requires
        near(x, xx, p),
        near(y, yy, q),
        0 <= p,
        0 <= q,
        p * q <= 0x4000_0000,
    ensures
        near(x * y, xx * yy, p + q + 1),
{
    let n: int = 0x4000_0000;
    let a = abs(x - xx);
    let b = abs(y - yy);
    let cx = abs(xx);
    let cy = abs(yy);
    let w = cx * cy;
    assert(abs(xx * yy) == w) by (nonlinear_arith)
        requires
            w == abs(xx) * abs(yy),
    ;
    assert(x * y - xx * yy == (x - xx) * (y - yy) + (x - xx) * yy + xx * (y - yy))
        by (nonlinear_arith);
    assert(abs((x - xx) * (y - yy)) == a * b) by (nonlinear_arith)
        requires
            a == abs(x - xx),
            b == abs(y - yy),
    ;
    assert(abs((x - xx) * yy) == a * cy) by (nonlinear_arith)
        requires
            a == abs(x - xx),
            cy == abs(yy),
    ;
    assert(abs(xx * (y - yy)) == cx * b) by (nonlinear_arith)
        requires
            b == abs(y - yy),
            cx == abs(xx),
    ;
    assert(n * (a * cy) <= p * w) by (nonlinear_arith)
        requires
            n * a <= p * cx,
            w == cx * cy,
            cy >= 0,
    ;
    assert(n * (cx * b) <= q * w) by (nonlinear_arith)
        requires
            n * b <= q * cy,
            w == cx * cy,
            cx >= 0,
    ;
    assert((n * a) * (n * b) <= (p * cx) * (q * cy)) by (nonlinear_arith)
        requires
            0 <= n * a <= p * cx,
            0 <= n * b <= q * cy,
    ;
    assert((n * a) * (n * b) == n * (n * (a * b))) by (nonlinear_arith);
    assert((p * cx) * (q * cy) == (p * q) * w) by (nonlinear_arith)
        requires
            w == cx * cy,
    ;
    assert((p * q) * w <= n * w) by (nonlinear_arith)
        requires
            p * q <= n,
            w >= 0,
    ;
    assert(n * (a * b) <= w) by (nonlinear_arith)
        requires
            n * (n * (a * b)) <= n * w,
            n > 0,
    ;
    assert((p + q + 1) * w == p * w + q * w + w) by (nonlinear_arith);
}

/// Both of two near numbers times the same number are as near.
proof fn lemma_near_scale(x: int, y: int, k: int, p: int)
    requires
        near(x, y, p),
    ensures
        near(x * k, y * k, p),
        near(k * x, k * y, p),
{
    let n: int = 0x4000_0000;
    let a = abs(x - y);
    let c = abs(y);
    let m = abs(k);
    assert(abs(x * k - y * k) == a * m) by (nonlinear_arith)
        requires
            a == abs(x - y),
            m == abs(k),
    ;
    assert(abs(y * k) == c * m) by (nonlinear_arith)
        requires
            c == abs(y),
            m == abs(k),
    ;
    assert(n * (a * m) <= p * (c * m)) by (nonlinear_arith)
        requires
            n * a <= p * c,
            m >= 0,
    ;
    assert(x * k == k * x && y * k == k * y) by (nonlinear_arith);
}

/// Two numbers that are near when taken a positive number of times are
/// near.
proof fn lemma_near_unscale(x: int, y: int, k: int, p: int)
    requires
        k > 0,
        near(k * x, k * y, p),
    ensures
        near(x, y, p),
{
    let n: int = 0x4000_0000;
    let a = abs(x - y);
    let c = abs(y);
    assert(abs(k * x - k * y) == k * a) by (nonlinear_arith)
        requires
            a == abs(x - y),
            k > 0,
    ;
    assert(abs(k * y) == k * c) by (nonlinear_arith)
        requires
            c == abs(y),
            k > 0,
    ;
    assert(n * a <= p * c) by (nonlinear_arith)
        requires
            n * (k * a) <= p * (k * c),
            k > 0,
    ;
}

/// If `x` is near `y`, then `y` is near `x`, by one part more.
proof fn lemma_near_flip(x: int, y: int, p: int)
    requires
        near(x, y, p),
        0 <= p <= 0x4000,
    ensures
        near(y, x, p + 1),
{
    let n: int = 0x4000_0000;
    let a = abs(x - y);
    let c = abs(y);
    let d = abs(x);
    assert(c <= d + a);
    assert(p * c <= p * d + p * a) by (nonlinear_arith)
        requires
            c <= d + a,
            0 <= p,
    ;
    // (n - p) * a <= p * d, and p * p <= n - p
    assert(p * a <= d) by (nonlinear_arith)
        requires
            n * a <= p * d + p * a,
            0 <= p <= 0x4000,
            n == 0x4000_0000,
            a >= 0,
            d >= 0,
    ;
    assert((p + 1) * d == p * d + d) by (nonlinear_arith);
}

/// A number near a number that is not negative is between half of it and
/// twice it.
proof fn lemma_near_bounds(x: int, y: int, p: int)
    requires
        near(x, y, p),
        y >= 0,
        0 <= p <= 0x2000_0000,
    ensures
        y <= 2 * x,
        x <= 2 * y,
        x >= 0,
        y > 0 ==> x > 0,
{
    let n: int = 0x4000_0000;
    assert(p * y <= 0x2000_0000 * y) by (nonlinear_arith)
        requires
            0 <= p <= 0x2000_0000,
            y >= 0,
    ;
}

/// The difference of two numbers near two others, where the others are at
/// most `kx` and `ky` times their difference, is near that difference.
proof fn lemma_near_difference(
    x: int,
    xx: int,
    y: int,
    yy: int,
    p: int,
    q: int,
    kx: int,
    ky: int,
)
    requires
        near(x, xx, p),
        near(y, yy, q),
        0 <= p,
        0 <= q,
        0 <= kx,
        0 <= ky,
        0 <= xx <= kx * (xx - yy),
        0 <= yy <= ky * (xx - yy),
    ensures
        near(x - y, xx - yy, p * kx + q * ky),
{
    let n: int = 0x4000_0000;
    let g = xx - yy;
    assert(p * xx <= p * (kx * g)) by (nonlinear_arith)
        requires
            xx <= kx * g,
            0 <= p,
    ;
    assert(q * yy <= q * (ky * g)) by (nonlinear_arith)
        requires
            yy <= ky * g,
            0 <= q,
    ;
    assert((p * kx + q * ky) * g == p * (kx * g) + q * (ky * g)) by (nonlinear_arith);
    assert(g >= 0) by (nonlinear_arith)
        requires
            0 <= kx,
            0 <= ky,
            0 <= xx <= kx * g,
            0 <= yy <= ky * g,
            g == xx - yy,
    ;
}

/// A rounded product is near the exact one, where that is from 2^-120 to
/// 2^127 in size.
proof fn lemma_product_near(x: Binary32, y: Binary32)
    requires
        x.is_finite(),
        y.is_finite(),
        pow2(178) <= abs(x.scaled() * y.scaled()) <= pow2(425),
    ensures
        x.spec_mul(y).is_finite(),
        x.spec_mul(y).sign() == (x.sign() != y.sign()),
        near(x.spec_mul(y).scaled() * unit_scale(), x.scaled() * y.scaled(), 129),
{
    lemma2_to64();
    lemma_pow2_adds(276, 149);
    lemma_pow2_adds(29, 149);
    lemma_mul_error(x, y);
}

/// A rounded difference is near the exact one, where that is from 2^-120
/// to 2^127 in size.
proof fn lemma_rest_near(x: Binary32, y: Binary32)
    requires
        x.is_finite(),
        y.is_finite(),
        pow2(29) <= abs(x.scaled() - y.scaled()) <= pow2(276),
    ensures
        x.spec_sub(y).is_finite(),
        near(x.spec_sub(y).scaled(), x.scaled() - y.scaled(), 129),
{
    lemma2_to64();
    lemma_sub_error(x, y);
}

/// A rounded quotient, times the divisor, is near the dividend, where the
/// exact quotient is from 2^-120 to 2^127 in size.
proof fn lemma_quotient_near(x: Binary32, y: Binary32)
    requires
        x.is_finite(),
        y.is_finite(),
        !y.is_zero(),
        abs(x.scaled()) * unit_scale() <= pow2(276) * abs(y.scaled()),
        pow2(29) * abs(y.scaled()) <= abs(x.scaled()) * unit_scale(),
    ensures
        x.spec_div(y).is_finite(),
        near(x.spec_div(y).scaled() * y.scaled(), x.scaled() * unit_scale(), 129),
{
    let unit = unit_scale();
    lemma2_to64();
    lemma_pow2_pos(149);
    lemma_div_error(x, y);
    assert(abs(x.scaled() * unit) == abs(x.scaled()) * unit) by (nonlinear_arith)
        requires
            unit > 0,
    ;
}

/// The square of a rounded root is near the number, where that is above
/// zero.
proof fn lemma_root_near(x: Binary32)
    requires
        x.is_finite(),
        !x.sign(),
        x.scaled() > 0,
    ensures
        x.spec_sqrt().is_finite(),
        !x.spec_sqrt().sign(),
        x.spec_sqrt().scaled() > 0,
        near(x.spec_sqrt().scaled() * x.spec_sqrt().scaled(), x.scaled() * unit_scale(), 257),
{
    let unit = unit_scale();
    let s = x.spec_sqrt().scaled();
    lemma_pow2_pos(149);
    crate::binary32::lemma_magnitude_order(0, x.abs_bits());
    assert(crate::binary32::magnitude_of(0) == 0);
    lemma_sqrt_error(x);
    let held = x.scaled() * unit;
    assert(held > 0) by (nonlinear_arith)
        requires
            held == x.scaled() * unit,
            x.scaled() > 0,
            unit > 0,
    ;
    assert(near(held, s * s, 256));
    lemma_near_flip(held, s * s, 256);
}

/// A number that is not negative and whose square is at most that of a
/// bound is at most the bound.
proof fn lemma_root_within(x: int, bound: int)
    requires
        0 <= x,
        0 <= bound,
        x * x <= bound * bound,
    ensures
        x <= bound,
{
    if x > bound {
        assert(x * x > bound * bound) by (nonlinear_arith)
            requires
                x > bound,
                bound >= 0,
        ;
    }
}

/// A multiple of a positive unit that is above zero is a positive
/// multiple, and a number of units within bounds given in units is within
/// them.
proof fn lemma_units(x: int, low: int, high: int, unit: int)
    requires
        unit > 0,
        low * unit <= x * unit <= high * unit,
    ensures
        low <= x <= high,
{
    assert(low <= x) by (nonlinear_arith)
        requires
            low * unit <= x * unit,
            unit > 0,
    ;
    assert(x <= high) by (nonlinear_arith)
        requires
            x * unit <= high * unit,
            unit > 0,
    ;
}

/// Whether `y` is `x` turned round: of the same size and the other sign,
/// where a zero may have either sign.
pub open spec fn turned(x: Binary32, y: Binary32) -> bool {
    y.abs_bits() == x.abs_bits() && (x.abs_bits() != 0 ==> y.sign() != x.sign())
}

/// A number turned round is itself turned round.
proof fn lemma_neg_turned(x: Binary32)
    ensures
        turned(x, x.spec_neg()),
        x.spec_neg().spec_neg() == x,
{
}

/// The difference of two finite numbers, taken the other way round, is
/// the difference turned round.
proof fn lemma_difference_turned(x: Binary32, y: Binary32)
    requires
        x.is_finite(),
        y.is_finite(),
    ensures
        turned(x.spec_sub(y), y.spec_sub(x)),
{
    let d = x.scaled() - y.scaled();
    lemma_neg_negates(x);
    lemma_neg_negates(y);
    assert(x.spec_neg().abs_bits() == x.abs_bits());
    assert(y.spec_neg().abs_bits() == y.abs_bits());
    if d > 0 {
        crate::rounding::lemma_rounding_exists(d, 1);
    } else if d < 0 {
        crate::rounding::lemma_rounding_exists(-d, 1);
    }
}

/// The square of a finite number is the square of the number turned
/// round, and the product of the two is that square turned round.
proof fn lemma_square_turned(x: Binary32, y: Binary32)
    requires
        x.is_finite(),
        turned(x, y),
    ensures
        y.spec_mul(y) == x.spec_mul(x),
        turned(x.spec_mul(x), x.spec_mul(y)),
        plain(x.spec_mul(x)),
{
    let unit = unit_scale();
    lemma_pow2_pos(149);
    let num = x.magnitude() * x.magnitude();
    crate::rounding::lemma_rounding_exists(num, unit);
    assert(y.magnitude() == x.magnitude());
    if x.abs_bits() == 0 {
        assert(crate::binary32::magnitude_of(0) == 0);
        assert(num == 0) by (nonlinear_arith)
            requires
                num == x.magnitude() * x.magnitude(),
                x.magnitude() == 0,
        ;
        crate::rounding::lemma_rounds_held(0, unit);
        assert(crate::binary32::magnitude_of(0) * unit == 0) by (nonlinear_arith)
            requires
                crate::binary32::magnitude_of(0) == 0,
        ;
    }
}

/// The sum of two numbers turned round is their sum turned round, for
/// finite numbers that are not below zero.
proof fn lemma_sum_turned(p: Binary32, q: Binary32, tp: Binary32, tq: Binary32)
    requires
        plain(p),
        plain(q),
        p.is_finite(),
        q.is_finite(),
        turned(p, tp),
        turned(q, tq),
    ensures
        turned(p.spec_add(q), tp.spec_add(tq)),
{
    crate::binary32::lemma_magnitude_order(0, p.abs_bits());
    crate::binary32::lemma_magnitude_order(0, q.abs_bits());
    assert(crate::binary32::magnitude_of(0) == 0);
    let x = p.scaled() + q.scaled();
    assert(tp.scaled() == -p.scaled());
    assert(tq.scaled() == -q.scaled());
    assert(tp.scaled() + tq.scaled() == -x);
    if x > 0 {
        crate::rounding::lemma_rounding_exists(x, 1);
    }
}

/// The squared length of a vector is that of the vector turned round, and
/// the dot product of the two is that squared length turned round, where
/// the squared length is finite.
proof fn lemma_dot_turned(w: Vec3f32, d: Vec3f32)
    requires
        w.is_finite(),
        turned(w.x, d.x),
        turned(w.y, d.y),
        turned(w.z, d.z),
        w.spec_dot(w).is_finite(),
    ensures
        d.spec_dot(d) == w.spec_dot(w),
        turned(w.spec_dot(w), w.spec_dot(d)),
{
    let xx = w.x.spec_mul(w.x);
    let yy = w.y.spec_mul(w.y);
    let zz = w.z.spec_mul(w.z);
    lemma_square_turned(w.x, d.x);
    lemma_square_turned(w.y, d.y);
    lemma_square_turned(w.z, d.z);
    lemma_sum_at_least(xx, yy);
    lemma_sum_at_least(xx.spec_add(yy), zz);
    let all = xx.spec_add(yy).spec_add(zz);
    assert(all == w.spec_dot(w));
    crate::binary32::lemma_magnitude_order(xx.abs_bits(), all.abs_bits());
    crate::binary32::lemma_magnitude_order(yy.abs_bits(), all.abs_bits());
    crate::binary32::lemma_magnitude_order(zz.abs_bits(), all.abs_bits());
    crate::binary32::lemma_magnitude_order(xx.spec_add(yy).abs_bits(), all.abs_bits());
    lemma_sum_turned(xx, yy, w.x.spec_mul(d.x), w.y.spec_mul(d.y));
    lemma_sum_turned(
        xx.spec_add(yy),
        zz,
        w.x.spec_mul(d.x).spec_add(w.y.spec_mul(d.y)),
        w.z.spec_mul(d.z),
    );
}

/// The first steps towards a hit, for a ray aimed at the centre from
/// between twice and four times the radius away: the squared length `a`
/// of the offset `w` and the squared radius are near the exact ones, and
/// the first is between three and seventeen times the second.
proof fn lemma_aimed_sizes(w: Vec3f32, radius: Binary32)
    requires
        within_scale(w, 179),
        sum_of_squares(w) >= pow2(258),
        radius.is_finite(),
        4 * (radius.scaled() * radius.scaled()) <= sum_of_squares(w),
        sum_of_squares(w) <= 16 * (radius.scaled() * radius.scaled()),
    ensures
        w.spec_dot(w).is_finite(),
        plain(w.spec_dot(w)),
        near(w.spec_dot(w).scaled() * unit_scale(), sum_of_squares(w), 512),
        pow2(108) <= w.spec_dot(w).scaled() <= pow2(212),
        radius.spec_mul(radius).is_finite(),
        plain(radius.spec_mul(radius)),
        near(
            radius.spec_mul(radius).scaled() * unit_scale(),
            radius.scaled() * radius.scaled(),
            129,
        ),
        w.spec_dot(w).scaled() <= 17 * radius.spec_mul(radius).scaled(),
        3 * radius.spec_mul(radius).scaled() <= w.spec_dot(w).scaled(),
{
    let unit = unit_scale();
    let s = sum_of_squares(w);
    let a = w.spec_dot(w);
    let r2 = radius.spec_mul(radius);
    let rr = radius.scaled() * radius.scaled();
    lemma2_to64();
    lemma_pow2_pos(149);
    lemma_pow2_le(179, 212);
    lemma_pow2_le(172, 258);
    lemma_pow2_le(176, 258);
    lemma_squared_length_near(w);
    assert(a == w.spec_squared_length());
    assert(near(a.scaled() * unit, s, 512));
    lemma_near_bounds(a.scaled() * unit, s, 512);
    // how large the exact squared length can be
    lemma_pow2_adds(179, 179);
    crate::accuracy::lemma_abs_product(w.x.scaled(), w.x.scaled(), pow2(179) as int, pow2(179) as int);
    crate::accuracy::lemma_abs_product(w.y.scaled(), w.y.scaled(), pow2(179) as int, pow2(179) as int);
    crate::accuracy::lemma_abs_product(w.z.scaled(), w.z.scaled(), pow2(179) as int, pow2(179) as int);
    assert(s <= 3 * pow2(358));
    lemma_pow2_adds(3, 358);
    lemma_pow2_adds(212, 149);
    lemma_pow2_adds(108, 149);
    lemma_pow2_unfold(258);
    lemma_units(a.scaled(), pow2(108) as int, pow2(212) as int, unit);
    crate::binary32::lemma_magnitude_order(0, a.abs_bits());
    // the squared radius
    lemma_pow2_adds(4, 254);
    lemma_pow2_le(178, 254);
    lemma_pow2_le(358, 425);
    assert(rr >= 0) by (nonlinear_arith)
        requires
            rr == radius.scaled() * radius.scaled(),
    ;
    lemma_product_near(radius, radius);
    lemma_near_bounds(r2.scaled() * unit, rr, 129);
    let held = r2.scaled() * unit;
    let known = a.scaled() * unit;
    assert(known <= 17 * held);
    assert(3 * held <= known);
    assert((17 * r2.scaled()) * unit == 17 * held) by (nonlinear_arith)
        requires
            held == r2.scaled() * unit,
    ;
    assert((3 * r2.scaled()) * unit == 3 * held) by (nonlinear_arith)
        requires
            held == r2.scaled() * unit,
    ;
    lemma_units(a.scaled(), 3 * r2.scaled(), 17 * r2.scaled(), unit);
}

/// The discriminant as it is computed for a ray aimed at the centre, from
/// the squared length `a` of the offset and the squared radius `r2`.
pub open spec fn aimed_discriminant(a: Binary32, r2: Binary32) -> Binary32 {
    a.spec_neg().spec_mul(a.spec_neg()).spec_sub(a.spec_mul(a.spec_sub(r2)))
}

/// The smaller solution as it is computed for a ray aimed at the centre.
pub open spec fn aimed_root(a: Binary32, r2: Binary32) -> Binary32 {
    a.spec_neg().spec_neg().spec_sub(aimed_discriminant(a, r2).spec_sqrt()).spec_div(a)
}

/// The discriminant of a ray aimed at the centre is above zero, and near
/// the squared length of the offset times the squared radius.
proof fn lemma_aimed_discriminant(a: Binary32, r2: Binary32)
    requires
        a.is_finite(),
        plain(a),
        r2.is_finite(),
        plain(r2),
        pow2(108) <= a.scaled() <= pow2(212),
        a.scaled() <= 17 * r2.scaled(),
        3 * r2.scaled() <= a.scaled(),
    ensures
        aimed_discriminant(a, r2).is_finite(),
        plain(aimed_discriminant(a, r2)),
        aimed_discriminant(a, r2).scaled() > 0,
        near(aimed_discriminant(a, r2).scaled() * unit_scale(), a.scaled() * r2.scaled(), 6467),
{
    let unit = unit_scale();
    let av = a.scaled();
    let rv = r2.scaled();
    let c = a.spec_sub(r2);
    let bb = a.spec_neg().spec_mul(a.spec_neg());
    let ac = a.spec_mul(c);
    let dd = bb.spec_sub(ac);
    assert(dd == aimed_discriminant(a, r2));
    lemma2_to64();
    lemma_pow2_pos(149);
    lemma_pow2_pos(108);
    lemma_pow2_le(29, 107);
    lemma_pow2_unfold(108);
    lemma_pow2_le(212, 276);
    crate::binary32::lemma_magnitude_order(0, r2.abs_bits());
    assert(rv >= 0);
    // c = a - r2
    lemma_rest_near(a, r2);
    let cv = c.scaled();
    lemma_near_bounds(cv, av - rv, 129);
    // b * b
    lemma_neg_turned(a);
    lemma_square_turned(a, a.spec_neg());
    assert(bb == a.spec_mul(a));
    let aa = av * av;
    lemma_pow2_adds(108, 108);
    lemma_pow2_adds(212, 212);
    lemma_pow2_le(178, 216);
    lemma_pow2_le(424, 425);
    assert(pow2(108) * pow2(108) <= aa <= pow2(212) * pow2(212)) by (nonlinear_arith)
        requires
            aa == av * av,
            0 < pow2(108) <= av <= pow2(212),
    ;
    lemma_product_near(a, a);
    // a * c
    let acv = av * cv;
    lemma_pow2_unfold(425);
    lemma_pow2_unfold(216);
    lemma_pow2_unfold(215);
    lemma_pow2_le(178, 214);
    assert(4 * acv >= aa && acv <= 2 * aa) by (nonlinear_arith)
        requires
            acv == av * cv,
            aa == av * av,
            av > 0,
            4 * cv >= av,
            cv <= 2 * av,
    ;
    lemma_product_near(a, c);
    let exact_ac = av * (av - rv);
    lemma_near_scale(cv, av - rv, av, 129);
    lemma_near_chain(ac.scaled() * unit, acv, exact_ac, 129, 129);
    // the difference
    let ar = av * rv;
    assert(aa - exact_ac == ar) by (nonlinear_arith)
        requires
            aa == av * av,
            exact_ac == av * (av - rv),
            ar == av * rv,
    ;
    assert(aa <= 17 * ar && 3 * ar <= aa) by (nonlinear_arith)
        requires
            aa == av * av,
            ar == av * rv,
            av > 0,
            av <= 17 * rv,
            3 * rv <= av,
    ;
    assert(0 <= exact_ac <= 16 * ar);
    lemma_near_difference(bb.scaled() * unit, aa, ac.scaled() * unit, exact_ac, 129, 259, 17, 16);
    let diff = bb.scaled() - ac.scaled();
    assert(diff * unit == bb.scaled() * unit - ac.scaled() * unit) by (nonlinear_arith)
        requires
            diff == bb.scaled() - ac.scaled(),
    ;
    assert(near(diff * unit, ar, 6337));
    lemma_near_bounds(diff * unit, ar, 6337);
    lemma_pow2_adds(61, 149);
    lemma_pow2_adds(276, 149);
    lemma_pow2_le(210, 211);
    lemma_pow2_unfold(212);
    lemma_pow2_unfold(213);
    lemma_pow2_unfold(214);
    assert(pow2(61) * unit <= diff * unit <= pow2(276) * unit);
    lemma_units(diff, pow2(61) as int, pow2(276) as int, unit);
    lemma_pow2_le(29, 61);
    lemma_rest_near(bb, ac);
    lemma_near_scale(dd.scaled(), diff, unit, 129);
    lemma_near_chain(dd.scaled() * unit, diff * unit, ar, 129, 6337);
    lemma_near_bounds(dd.scaled() * unit, ar, 6467);
    assert(ar > 0);
    assert(dd.scaled() > 0) by (nonlinear_arith)
        requires
            dd.scaled() * unit > 0,
            unit > 0,
    ;
    crate::binary32::lemma_magnitude_order(0, dd.abs_bits());
}

/// The smaller solution for a ray aimed at the centre is between zero and
/// one, and what it leaves of one, squared and taken as often as the
/// squared length `a` says, is near the squared radius.
proof fn lemma_aimed_root(a: Binary32, r2: Binary32)
    requires
        a.is_finite(),
        plain(a),
        r2.is_finite(),
        plain(r2),
        pow2(108) <= a.scaled() <= pow2(212),
        a.scaled() <= 17 * r2.scaled(),
        3 * r2.scaled() <= a.scaled(),
    ensures
        aimed_root(a, r2).is_finite(),
        0 < aimed_root(a, r2).scaled() < unit_scale(),
        ({
            let rest = unit_scale() - aimed_root(a, r2).scaled();
            near((rest * rest) * a.scaled(), (unit_scale() * unit_scale()) * r2.scaled(), 8347)
        }),
{
    let unit = unit_scale();
    let av = a.scaled();
    let rv = r2.scaled();
    let dd = aimed_discriminant(a, r2);
    let sq = dd.spec_sqrt();
    let nn = a.spec_sub(sq);
    let t = nn.spec_div(a);
    lemma_neg_negates(a);
    assert(t == aimed_root(a, r2));
    lemma2_to64();
    lemma_pow2_pos(149);
    lemma_pow2_pos(108);
    lemma_aimed_discriminant(a, r2);
    let ar = av * rv;
    let aa = av * av;
    assert(aa <= 17 * ar && 3 * ar <= aa && ar > 0) by (nonlinear_arith)
        requires
            aa == av * av,
            ar == av * rv,
            av > 0,
            av <= 17 * rv,
            3 * rv <= av,
    ;
    // the root
    lemma_root_near(dd);
    let sv = sq.scaled();
    let ss = sv * sv;
    lemma_near_chain(ss, dd.scaled() * unit, ar, 257, 6467);
    assert(near(ss, ar, 6725));
    assert(1089 * ss >= 64 * aa);
    assert(64 * ss <= 49 * aa);
    assert((33 * sv) * (33 * sv) == 1089 * ss) by (nonlinear_arith)
        requires
            ss == sv * sv,
    ;
    assert((8 * av) * (8 * av) == 64 * aa) by (nonlinear_arith)
        requires
            aa == av * av,
    ;
    assert((8 * sv) * (8 * sv) == 64 * ss) by (nonlinear_arith)
        requires
            ss == sv * sv,
    ;
    assert((7 * av) * (7 * av) == 49 * aa) by (nonlinear_arith)
        requires
            aa == av * av,
    ;
    lemma_root_within(8 * av, 33 * sv);
    lemma_root_within(8 * sv, 7 * av);
    // what is left of a
    let gap = av - sv;
    assert(8 * gap >= av && 8 * gap <= 25 * sv);
    lemma_pow2_le(29, 105);
    lemma_pow2_adds(3, 105);
    lemma_pow2_le(212, 276);
    lemma_rest_near(a, sq);
    let nv = nn.scaled();
    lemma_near_bounds(nv, gap, 129);
    // the quotient
    lemma_pow2_adds(4, 145);
    lemma_pow2_adds(29, 116);
    lemma_pow2_le(149, 275);
    lemma_pow2_unfold(276);
    assert(nv * unit <= pow2(276) * av) by (nonlinear_arith)
        requires
            0 <= nv <= 2 * av,
            0 < unit <= pow2(275),
            pow2(276) == 2 * pow2(275),
    ;
    assert(pow2(29) * av <= nv * unit) by (nonlinear_arith)
        requires
            16 * nv >= av,
            av > 0,
            unit == 16 * pow2(145),
            pow2(145) == pow2(29) * pow2(116),
            pow2(116) >= 1,
            pow2(29) > 0,
    ;
    crate::binary32::lemma_magnitude_order(0, a.abs_bits());
    assert(crate::binary32::magnitude_of(0) == 0);
    lemma_quotient_near(nn, a);
    let tv = t.scaled();
    lemma_near_scale(nv, gap, unit, 129);
    lemma_near_chain(tv * av, nv * unit, gap * unit, 129, 129);
    let rest = unit - tv;
    let reach = unit * sv;
    assert(rest * av - reach == gap * unit - tv * av) by (nonlinear_arith)
        requires
            rest == unit - tv,
            reach == unit * sv,
            gap == av - sv,
    ;
    assert(8 * (gap * unit) <= 25 * reach) by (nonlinear_arith)
        requires
            8 * gap <= 25 * sv,
            reach == unit * sv,
            unit > 0,
    ;
    assert(gap * unit > 0) by (nonlinear_arith)
        requires
            gap > 0,
            unit > 0,
    ;
    assert(reach > 0) by (nonlinear_arith)
        requires
            reach == unit * sv,
            sv > 0,
            unit > 0,
    ;
    assert(near(rest * av, reach, 810));
    lemma_near_bounds(tv * av, gap * unit, 259);
    lemma_near_bounds(rest * av, reach, 810);
    assert(tv > 0) by (nonlinear_arith)
        requires
            tv * av > 0,
            av > 0,
    ;
    assert(rest > 0) by (nonlinear_arith)
        requires
            rest * av > 0,
            av > 0,
    ;
    // the squares
    lemma_near_product(rest * av, reach, rest * av, reach, 810, 810);
    let fine = unit * unit;
    lemma_near_scale(ss, ar, fine, 6725);
    assert(reach * reach == fine * ss) by (nonlinear_arith)
        requires
            reach == unit * sv,
            fine == unit * unit,
            ss == sv * sv,
    ;
    lemma_near_chain((rest * av) * (rest * av), fine * ss, fine * ar, 1621, 6725);
    assert((rest * av) * (rest * av) == av * ((rest * rest) * av)) by (nonlinear_arith);
    assert(fine * ar == av * (fine * rv)) by (nonlinear_arith)
        requires
            ar == av * rv,
    ;
    lemma_near_unscale((rest * rest) * av, fine * rv, av, 8347);
}

/// A ray aimed at the centre of a sphere, from between twice and four
/// times the radius away, meets the sphere where the distance to the
/// centre, less the radius, has been covered.
///
/// The direction of the ray is the centre less the origin, so that the
/// centre lies at the parameter one; its components are at most 2^30 in
/// size, and its length is at least 2^-20. Then the discriminant is above
/// zero; the smaller solution `t` is between zero and one; and `1 - t`
/// times the distance is the radius to within 8 parts in a million: its
/// square, which is `1 - t` squared times the exact squared distance,
/// lies within one part in 2^16 of the squared radius. So `t` times the
/// distance is the distance less the radius to within 8 parts in a
/// million of the radius, which is at most the distance less the radius.
/// Where `t` is in range, the hit is the one at `t`.
pub proof fn lemma_aimed_ray_hits_short_by_radius(
    center: Vec3f32,
    radius: Binary32,
    r: Ray,
    tmin: Binary32,
    tmax: Binary32,
)
    requires
        r.a.is_finite(),
        center.is_finite(),
        radius.is_finite(),
        r.b == center.spec_sub(r.a),
        within_scale(r.a.spec_sub(center), 179),
        sum_of_squares(r.a.spec_sub(center)) >= pow2(258),
        4 * (radius.scaled() * radius.scaled()) <= sum_of_squares(r.a.spec_sub(center)),
        sum_of_squares(r.a.spec_sub(center)) <= 16 * (radius.scaled() * radius.scaled()),
    ensures
        (Binary32 { bits: 0 }).spec_lt(discriminant_spec(center, radius, r)),
        near_root_spec(center, radius, r).is_finite(),
        0 < near_root_spec(center, radius, r).scaled() < unit_scale(),
        ({
            let rest = unit_scale() - near_root_spec(center, radius, r).scaled();
            0x1_0000 * abs(
                (rest * rest) * sum_of_squares(r.a.spec_sub(center)) - (unit_scale()
                    * unit_scale()) * (radius.scaled() * radius.scaled()),
            ) <= (unit_scale() * unit_scale()) * (radius.scaled() * radius.scaled())
        }),
        in_range(near_root_spec(center, radius, r), tmin, tmax) ==> hit_sphere_spec(
            center,
            radius,
            r,
            tmin,
            tmax,
        ) == Some(record_at(center, radius, r, near_root_spec(center, radius, r))),
{
    let unit = unit_scale();
    let w = r.a.spec_sub(center);
    let s = sum_of_squares(w);
    let a = w.spec_dot(w);
    let r2 = radius.spec_mul(radius);
    let rr = radius.scaled() * radius.scaled();
    lemma_pow2_pos(149);
    lemma_pow2_pos(108);
    lemma_aimed_sizes(w, radius);
    lemma_difference_turned(r.a.x, center.x);
    lemma_difference_turned(r.a.y, center.y);
    lemma_difference_turned(r.a.z, center.z);
    lemma_dot_turned(w, r.b);
    let b = w.spec_dot(r.b);
    crate::binary32::lemma_magnitude_order(0, a.abs_bits());
    assert(crate::binary32::magnitude_of(0) == 0);
    assert(b == a.spec_neg());
    assert(discriminant_spec(center, radius, r) == aimed_discriminant(a, r2));
    assert(near_root_spec(center, radius, r) == aimed_root(a, r2));
    lemma_aimed_discriminant(a, r2);
    lemma_aimed_root(a, r2);
    let t = aimed_root(a, r2);
    let rest = unit - t.scaled();
    let fine = unit * unit;
    let square = rest * rest;
    let av = a.scaled();
    let rv = r2.scaled();
    // from the rounded squared length and squared radius to the exact ones
    lemma_near_scale(square * av, fine * rv, unit, 8347);
    assert((square * av) * unit == square * (av * unit)) by (nonlinear_arith);
    assert((fine * rv) * unit == fine * (rv * unit)) by (nonlinear_arith);
    lemma_near_scale(rv * unit, rr, fine, 129);
    lemma_near_chain(square * (av * unit), fine * (rv * unit), fine * rr, 8347, 129);
    lemma_near_flip(av * unit, s, 512);
    lemma_near_scale(s, av * unit, square, 513);
    lemma_near_chain(square * s, square * (av * unit), fine * rr, 513, 8477);
    assert(near(square * s, fine * rr, 8991));
    assert(fine * rr >= 0) by (nonlinear_arith)
        requires
            fine == unit * unit,
            rr == radius.scaled() * radius.scaled(),
    ;
}

} // verus!
