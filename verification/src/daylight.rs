//! The sky is no brighter than white, and no darker than black, along
//! every direction whose length the format can hold.

use vstd::prelude::*;
use vstd::arithmetic::power2::*;
use crate::binary32::{
    Binary32, magnitude_of, lemma_magnitude_order, lemma_magnitude_linear,
    lemma_one_is_unit_scale, unit_scale, INFINITY_BITS,
};
use crate::rounding::{
    nearest, nearest_root, lemma_rounding_exists, lemma_rounding_monotone, lemma_rounds_held,
};
use crate::accuracy::{abs, within_scale, lemma_root_rounding_exists, lemma_root_rounding_monotone};
use crate::away::{lemma_gap_below, lemma_root_of_square_is_exact};
use crate::vec3f::Vec3f32;
use crate::ray::Ray;
use crate::sampling::ONE_BITS;
use crate::trace::{sky_spec, HALF_BITS};
use crate::bright::colour_from_zero_to_one;

verus! {

/// Whether the length of the direction `d` is within what the format
/// holds: no component is above 2^63 in size, and one of them is at least
/// 2^-63, so that the squares neither run over nor fade.
pub open spec fn tame(d: Vec3f32) -> bool {
    within_scale(d, 212) && (abs(d.x.scaled()) >= pow2(86) || abs(d.y.scaled()) >= pow2(86) || abs(
        d.z.scaled(),
    ) >= pow2(86))
}

/// Whether `x` is a number with its sign bit clear.
pub open spec fn plain(x: Binary32) -> bool {
    !x.is_nan() && !x.sign()
}

/// The sum of two numbers that are not below zero is not below either of
/// them.
pub proof fn lemma_sum_at_least(a: Binary32, c: Binary32)
    requires
        plain(a),
        plain(c),
    ensures
        plain(a.spec_add(c)),
        a.spec_add(c).scaled() >= a.scaled() >= 0,
        a.spec_add(c).scaled() >= c.scaled() >= 0,
{
    let r = a.spec_add(c);
    lemma_magnitude_order(0, a.abs_bits());
    lemma_magnitude_order(0, c.abs_bits());
    lemma_magnitude_order(a.abs_bits(), INFINITY_BITS as int);
    lemma_magnitude_order(c.abs_bits(), INFINITY_BITS as int);
    assert(magnitude_of(0) == 0);
    if a.is_finite() && c.is_finite() {
        let x = a.scaled() + c.scaled();
        if x != 0 {
            let n = nearest(x, 1);
            lemma_rounding_exists(x, 1);
            assert(r == Binary32::compose(false, n));
            assert(r.abs_bits() == n);
            lemma_rounds_held(a.abs_bits(), 1);
            lemma_rounds_held(c.abs_bits(), 1);
            lemma_rounding_monotone(a.abs_bits(), a.magnitude() * 1, 1, n, x, 1);
            lemma_rounding_monotone(c.abs_bits(), c.magnitude() * 1, 1, n, x, 1);
            lemma_magnitude_order(a.abs_bits(), n);
            lemma_magnitude_order(c.abs_bits(), n);
        }
    }
}

/// The square of a finite number is a number that is not below zero.
proof fn lemma_square_plain(x: Binary32)
    requires
        x.is_finite(),
    ensures
        plain(x.spec_mul(x)),
{
    lemma_pow2_pos(149);
    lemma_rounding_exists(x.magnitude() * x.magnitude(), unit_scale());
}

/// The root of a number that is not below zero is not below the root of a
/// smaller such number.
proof fn lemma_root_keeps_order(a: Binary32, c: Binary32)
    requires
        plain(a),
        plain(c),
        0 < a.scaled() <= c.scaled(),
    ensures
        plain(c.spec_sqrt()),
        c.spec_sqrt().scaled() >= a.spec_sqrt().scaled(),
{
    lemma_pow2_pos(149);
    lemma_magnitude_order(0, a.abs_bits());
    lemma_magnitude_order(0, c.abs_bits());
    lemma_magnitude_order(a.abs_bits(), c.abs_bits());
    lemma_magnitude_order(c.abs_bits(), INFINITY_BITS as int);
    assert(magnitude_of(0) == 0);
    let unit = unit_scale();
    if a.is_finite() {
        let na = nearest_root(a.magnitude() * unit);
        lemma_root_rounding_exists(a.magnitude() * unit);
        assert(a.spec_sqrt() == Binary32::compose(false, na));
        assert(a.spec_sqrt().abs_bits() == na);
        lemma_magnitude_order(na, INFINITY_BITS as int);
        if c.is_finite() {
            let nc = nearest_root(c.magnitude() * unit);
            lemma_root_rounding_exists(c.magnitude() * unit);
            assert(c.spec_sqrt() == Binary32::compose(false, nc));
            assert(c.spec_sqrt().abs_bits() == nc);
            assert(a.magnitude() * unit <= c.magnitude() * unit) by (nonlinear_arith)
                requires
                    a.magnitude() <= c.magnitude(),
                    unit > 0,
            ;
            lemma_root_rounding_monotone(na, a.magnitude() * unit, nc, c.magnitude() * unit);
            lemma_magnitude_order(na, nc);
        }
    }
}

/// The number `x` without its sign.
pub open spec fn unsigned(x: Binary32) -> Binary32 {
    Binary32::compose(false, x.abs_bits())
}

/// The root of a number `sum` that is at least the square of a number `b`
/// from 2^-63 to 2^63 in size is at least `b` in size.
proof fn lemma_length_at_least_component(b: Binary32, sum: Binary32)
    requires
        b.is_finite(),
        pow2(86) <= abs(b.scaled()) <= pow2(212),
        plain(sum),
        sum.scaled() >= b.spec_mul(b).scaled(),
    ensures
        plain(sum.spec_sqrt()),
        sum.spec_sqrt().scaled() >= abs(b.scaled()),
{
    let u = unsigned(b);
    assert(u.abs_bits() == b.abs_bits());
    assert(u.scaled() == abs(b.scaled())) by {
        lemma_magnitude_order(0, b.abs_bits());
    }
    assert(u.spec_mul(u) == b.spec_mul(b));
    lemma_root_of_square_is_exact(u);
    lemma_root_keeps_order(b.spec_mul(b), sum);
}

/// The length of a tame direction is a number that is not below the size
/// of any of its components, and above zero.
pub proof fn lemma_length_at_least(d: Vec3f32)
    requires
        tame(d),
    ensures
        plain(d.spec_length()),
        d.spec_length().scaled() >= pow2(86),
        d.spec_length().scaled() >= abs(d.x.scaled()),
        d.spec_length().scaled() >= abs(d.y.scaled()),
        d.spec_length().scaled() >= abs(d.z.scaled()),
{
    let xx = d.x.spec_mul(d.x);
    let yy = d.y.spec_mul(d.y);
    let zz = d.z.spec_mul(d.z);
    lemma_square_plain(d.x);
    lemma_square_plain(d.y);
    lemma_square_plain(d.z);
    lemma_sum_at_least(xx, yy);
    lemma_sum_at_least(xx.spec_add(yy), zz);
    let sum = d.spec_squared_length();
    assert(sum == xx.spec_add(yy).spec_add(zz));
    if abs(d.x.scaled()) >= pow2(86) {
        lemma_length_at_least_component(d.x, sum);
    }
    if abs(d.y.scaled()) >= pow2(86) {
        lemma_length_at_least_component(d.y, sum);
    }
    if abs(d.z.scaled()) >= pow2(86) {
        lemma_length_at_least_component(d.z, sum);
    }
}

/// A finite number divided by a number that is at least its size, and
/// above zero, is from minus one to one.
pub proof fn lemma_quotient_within_one(x: Binary32, m: Binary32)
    requires
        x.is_finite(),
        plain(m),
        m.scaled() >= abs(x.scaled()),
        m.scaled() > 0,
    ensures
        x.spec_div(m).is_finite(),
        abs(x.spec_div(m).scaled()) <= unit_scale(),
{
    let unit = unit_scale();
    let q = x.spec_div(m);
    let negative = x.sign() != m.sign();
    lemma_pow2_pos(149);
    lemma_one_is_unit_scale();
    lemma_magnitude_order(0, x.abs_bits());
    lemma_magnitude_order(0, m.abs_bits());
    assert(magnitude_of(0) == 0);
    if m.is_infinite() || x.is_zero() {
        assert(q == Binary32::compose(negative, 0));
        assert(q.abs_bits() == 0);
    } else {
        let n = nearest(x.magnitude() * unit, m.magnitude());
        lemma_rounding_exists(x.magnitude() * unit, m.magnitude());
        assert(q == Binary32::compose(negative, n));
        lemma_rounds_held(ONE_BITS as int, m.magnitude());
        assert((x.magnitude() * unit) * m.magnitude() <= (unit * m.magnitude()) * m.magnitude())
            by (nonlinear_arith)
            requires
                0 <= x.magnitude() <= m.magnitude(),
                unit > 0,
        ;
        lemma_rounding_monotone(
            n,
            x.magnitude() * unit,
            m.magnitude(),
            ONE_BITS as int,
            magnitude_of(ONE_BITS as int) * m.magnitude(),
            m.magnitude(),
        );
        assert(q.abs_bits() == n);
        lemma_magnitude_order(n, ONE_BITS as int);
    }
}

/// Whether `x` is a number from zero to one with its sign bit clear.
pub open spec fn share(x: Binary32) -> bool {
    plain(x) && x.scaled() <= unit_scale()
}

/// What is left of one when a share `t` is taken from it is a share again,
/// and is above what is left exactly by at most 2^-25.
proof fn lemma_rest_of_one(t: Binary32)
    requires
        share(t),
    ensures
        share((Binary32 { bits: ONE_BITS }).spec_sub(t)),
        (Binary32 { bits: ONE_BITS }).spec_sub(t).scaled() <= unit_scale() - t.scaled() + pow2(
            124,
        ),
{
    let unit = unit_scale();
    let one = Binary32 { bits: ONE_BITS };
    let a = one.spec_sub(t);
    let x = unit - t.scaled();
    lemma_pow2_pos(149);
    lemma_pow2_pos(124);
    lemma_one_is_unit_scale();
    lemma_magnitude_order(0, t.abs_bits());
    lemma_magnitude_order(t.abs_bits(), ONE_BITS as int);
    assert(magnitude_of(0) == 0);
    crate::binary32::lemma_neg_negates(t);
    assert(t.spec_neg().abs_bits() == t.abs_bits());
    assert(a == crate::arith::rounded_sum(x, false));
    if x != 0 {
        let n = nearest(x, 1);
        lemma_rounding_exists(x, 1);
        assert(a == Binary32::compose(false, n));
        assert(a.abs_bits() == n);
        lemma_rounds_held(ONE_BITS as int, 1);
        lemma_rounding_monotone(n, x, 1, ONE_BITS as int, unit * 1, 1);
        lemma_magnitude_order(n, ONE_BITS as int);
        lemma_magnitude_order(0, n);
        if n >= 1 {
            lemma_gap_below(n, 125);
            lemma_pow2_unfold(125);
        }
    }
}

/// A share of a share is at most the second.
proof fn lemma_share_of_share(f: Binary32, t: Binary32)
    requires
        share(f),
        share(t),
    ensures
        share(f.spec_mul(t)),
        f.spec_mul(t).scaled() <= t.scaled(),
{
    let unit = unit_scale();
    let h = f.spec_mul(t);
    lemma_pow2_pos(149);
    lemma_one_is_unit_scale();
    lemma_magnitude_order(0, t.abs_bits());
    lemma_magnitude_order(0, f.abs_bits());
    lemma_magnitude_order(t.abs_bits(), ONE_BITS as int);
    lemma_magnitude_order(f.abs_bits(), ONE_BITS as int);
    assert(magnitude_of(0) == 0);
    let num = f.magnitude() * t.magnitude();
    let n = nearest(num, unit);
    lemma_rounding_exists(num, unit);
    assert(h == Binary32::compose(false, n));
    assert(h.abs_bits() == n);
    lemma_rounds_held(t.abs_bits(), unit);
    assert(num * unit <= (t.magnitude() * unit) * unit) by (nonlinear_arith)
        requires
            num == f.magnitude() * t.magnitude(),
            0 <= f.magnitude() <= unit,
            t.magnitude() >= 0,
    ;
    lemma_rounding_monotone(n, num, unit, t.abs_bits(), t.magnitude() * unit, unit);
    lemma_magnitude_order(n, t.abs_bits());
    lemma_magnitude_order(0, n);
}

/// One times a share is the share.
proof fn lemma_one_times(a: Binary32)
    requires
        share(a),
    ensures
        (Binary32 { bits: ONE_BITS }).spec_mul(a) == a,
{
    let unit = unit_scale();
    let one = Binary32 { bits: ONE_BITS };
    lemma_pow2_pos(149);
    lemma_one_is_unit_scale();
    lemma_magnitude_order(a.abs_bits(), ONE_BITS as int);
    lemma_rounds_held(a.abs_bits(), unit);
    assert(one.magnitude() * a.magnitude() == a.magnitude() * unit) by (nonlinear_arith)
        requires
            one.magnitude() == unit,
    ;
    assert(a == Binary32::compose(false, a.abs_bits()));
}

/// A channel of the blend is a share: with `t` a share and `f` the share
/// that the channel has in the second colour, `(1 - t) + f * t` is from
/// zero to one, rounded as it is at each step.
proof fn lemma_blend_is_share(f: Binary32, t: Binary32)
    requires
        share(f),
        share(t),
    ensures
        share(
            (Binary32 { bits: ONE_BITS }).spec_mul((Binary32 { bits: ONE_BITS }).spec_sub(t))
                .spec_add(f.spec_mul(t)),
        ),
{
    let unit = unit_scale();
    let one = Binary32 { bits: ONE_BITS };
    let a = one.spec_sub(t);
    let h = f.spec_mul(t);
    let c = one.spec_mul(a).spec_add(h);
    lemma_rest_of_one(t);
    lemma_one_times(a);
    lemma_share_of_share(f, t);
    lemma_pow2_pos(149);
    lemma_pow2_pos(124);
    lemma_one_is_unit_scale();
    lemma_magnitude_order(0, a.abs_bits());
    lemma_magnitude_order(0, h.abs_bits());
    lemma_magnitude_order(a.abs_bits(), ONE_BITS as int);
    lemma_magnitude_order(h.abs_bits(), ONE_BITS as int);
    assert(magnitude_of(0) == 0);
    let x = a.scaled() + h.scaled();
    assert(c == crate::arith::rounded_sum(x, false));
    assert(x <= unit + pow2(124));
    if x != 0 {
        let n = nearest(x, 1);
        lemma_rounding_exists(x, 1);
        assert(c == Binary32::compose(false, n));
        assert(c.abs_bits() == n);
        lemma_magnitude_order(0, n);
        if n > ONE_BITS {
            lemma_magnitude_order(ONE_BITS as int, n - 1);
            lemma_magnitude_order(ONE_BITS + 1, n);
            lemma_magnitude_linear(126, 0x80_0001);
            lemma_pow2_adds(23, 126);
            lemma_pow2_unfold(126);
            lemma_pow2_unfold(125);
            lemma2_to64();
            assert(magnitude_of(ONE_BITS + 1) == unit + pow2(126)) by (nonlinear_arith)
                requires
                    magnitude_of(ONE_BITS + 1) == 0x80_0001 * pow2(126),
                    unit == 0x80_0000 * pow2(126),
            ;
            assert(false);
        }
        lemma_magnitude_order(n, ONE_BITS as int);
    }
}

/// The height of the unit direction, shifted and halved, is a share.
proof fn lemma_blend_factor(uy: Binary32)
    requires
        uy.is_finite(),
        abs(uy.scaled()) <= unit_scale(),
    ensures
        share((Binary32 { bits: HALF_BITS }).spec_mul(uy.spec_add(Binary32 { bits: ONE_BITS }))),
{
    let unit = unit_scale();
    let one = Binary32 { bits: ONE_BITS };
    let half = Binary32 { bits: HALF_BITS };
    let shifted = uy.spec_add(one);
    let t = half.spec_mul(shifted);
    lemma_pow2_pos(149);
    lemma_one_is_unit_scale();
    lemma2_to64();
    lemma_magnitude_linear(127, 0x80_0000);
    lemma_magnitude_linear(125, 0x80_0000);
    lemma_pow2_adds(23, 127);
    lemma_pow2_adds(23, 125);
    lemma_pow2_unfold(150);
    lemma_pow2_unfold(149);
    assert(magnitude_of(0) == 0);
    assert(magnitude_of(0x4000_0000) == 2 * unit);
    assert(half.magnitude() * 2 == unit);
    let x = uy.scaled() + unit;
    assert(shifted == crate::arith::rounded_sum(x, false));
    assert(plain(shifted) && 0 <= shifted.scaled() <= 2 * unit) by {
        if x != 0 {
            let n = nearest(x, 1);
            lemma_rounding_exists(x, 1);
            assert(shifted == Binary32::compose(false, n));
            assert(shifted.abs_bits() == n);
            lemma_rounds_held(0x4000_0000, 1);
            lemma_rounding_monotone(n, x, 1, 0x4000_0000, (2 * unit) * 1, 1);
            lemma_magnitude_order(n, 0x4000_0000);
            lemma_magnitude_order(0, n);
        }
    }
    lemma_magnitude_order(shifted.abs_bits(), 0x4000_0000);
    let num = half.magnitude() * shifted.magnitude();
    let n = nearest(num, unit);
    lemma_rounding_exists(num, unit);
    assert(t == Binary32::compose(false, n));
    assert(t.abs_bits() == n);
    lemma_rounds_held(ONE_BITS as int, unit);
    assert(num * unit <= (unit * unit) * unit) by (nonlinear_arith)
        requires
            num == half.magnitude() * shifted.magnitude(),
            half.magnitude() * 2 == unit,
            0 <= shifted.magnitude() <= 2 * unit,
            unit > 0,
    ;
    lemma_rounding_monotone(n, num, unit, ONE_BITS as int, unit * unit, unit);
    lemma_magnitude_order(n, ONE_BITS as int);
    lemma_magnitude_order(0, n);
}

/// The sky is from black to white: along a ray whose direction is tame,
/// every channel of the sky's colour is from zero to one.
pub proof fn lemma_sky_from_zero_to_one(r: Ray)
    requires
        tame(r.b),
    ensures
        colour_from_zero_to_one(sky_spec(r)),
{
    let one = Binary32 { bits: ONE_BITS };
    let half = Binary32 { bits: HALF_BITS };
    let seven_tenths = Binary32 { bits: crate::trace::SEVEN_TENTHS_BITS };
    let len = r.b.spec_length();
    let uy = r.b.spec_unit_vector().y;
    lemma_length_at_least(r.b);
    lemma_pow2_pos(86);
    lemma_quotient_within_one(r.b.y, len);
    lemma_blend_factor(uy);
    let t = half.spec_mul(uy.spec_add(one));
    lemma_one_is_unit_scale();
    lemma2_to64();
    lemma_magnitude_linear(125, 0x80_0000);
    lemma_magnitude_linear(125, 0xb3_3333);
    lemma_pow2_adds(24, 125);
    lemma_pow2_pos(125);
    assert(seven_tenths.magnitude() <= unit_scale()) by (nonlinear_arith)
        requires
            seven_tenths.magnitude() == 0xb3_3333 * pow2(125),
            unit_scale() == 0x100_0000 * pow2(125),
    ;
    assert(half.magnitude() <= unit_scale()) by (nonlinear_arith)
        requires
            half.magnitude() == 0x80_0000 * pow2(125),
            unit_scale() == 0x100_0000 * pow2(125),
    ;
    lemma_blend_is_share(half, t);
    lemma_blend_is_share(seven_tenths, t);
    lemma_blend_is_share(one, t);
    let sky = sky_spec(r);
    assert(sky.x == one.spec_mul(one.spec_sub(t)).spec_add(half.spec_mul(t)));
    assert(sky.y == one.spec_mul(one.spec_sub(t)).spec_add(seven_tenths.spec_mul(t)));
    assert(sky.z == one.spec_mul(one.spec_sub(t)).spec_add(one.spec_mul(t)));
    lemma_magnitude_order(0, sky.x.abs_bits());
    lemma_magnitude_order(0, sky.y.abs_bits());
    lemma_magnitude_order(0, sky.z.abs_bits());
}

} // verus!
