//! A reflected direction leaves the surface at the angle at which the
//! incoming one met it, up to rounding.

use vstd::prelude::*;
use vstd::arithmetic::power2::*;
use crate::binary32::{Binary32, unit_scale, lemma_magnitude_linear};
use crate::accuracy::{
    abs, sized, within_scale, exact_dot, lemma_abs_product, lemma_cancel_bound,
    lemma_pow2_multiples, lemma_sized_product, lemma_dot_error, lemma_sub_error,
};
use crate::rounding::lemma_pow2_le;
use crate::sampling::TWO_BITS;
use crate::scatter::reflect_spec;
use crate::unit_length::{sum_of_squares, near_unit};
use crate::vec3f::Vec3f32;

verus! {

/// A number whose square is at most the square of a bound is at most the
/// bound in size.
proof fn lemma_square_at_most(x: int, total: int, bound: int)
    requires
        0 <= x * x <= total,
        0 <= bound,
        total <= bound * bound,
    ensures
        abs(x) <= bound,
{
    if abs(x) > bound {
        assert(x * x > bound * bound) by (nonlinear_arith)
            requires
                abs(x) > bound,
                bound >= 0,
        ;
    }
}

/// The inequality of Cauchy and Schwarz for three components.
proof fn lemma_cauchy_schwarz(a1: int, a2: int, a3: int, b1: int, b2: int, b3: int)
    ensures
        (a1 * b1 + a2 * b2 + a3 * b3) * (a1 * b1 + a2 * b2 + a3 * b3) <= (a1 * a1 + a2 * a2 + a3
            * a3) * (b1 * b1 + b2 * b2 + b3 * b3),
{
    let c1 = a2 * b3 - a3 * b2;
    let c2 = a3 * b1 - a1 * b3;
    let c3 = a1 * b2 - a2 * b1;
    let d = a1 * b1 + a2 * b2 + a3 * b3;
    let qa = a1 * a1 + a2 * a2 + a3 * a3;
    let qb = b1 * b1 + b2 * b2 + b3 * b3;
    assert(c1 * c1 >= 0 && c2 * c2 >= 0 && c3 * c3 >= 0) by (nonlinear_arith);
    // the identity of Lagrange, one pair of indices at a time
    let (p11, p22, p33) = ((a1 * b1) * (a1 * b1), (a2 * b2) * (a2 * b2), (a3 * b3) * (a3 * b3));
    let (x12, x13, x23) = ((a1 * b1) * (a2 * b2), (a1 * b1) * (a3 * b3), (a2 * b2) * (a3 * b3));
    let (s12, s21) = ((a1 * b2) * (a1 * b2), (a2 * b1) * (a2 * b1));
    let (s13, s31) = ((a1 * b3) * (a1 * b3), (a3 * b1) * (a3 * b1));
    let (s23, s32) = ((a2 * b3) * (a2 * b3), (a3 * b2) * (a3 * b2));
    assert(d * d == p11 + p22 + p33 + 2 * x12 + 2 * x13 + 2 * x23) by (nonlinear_arith)
        requires
            d == a1 * b1 + a2 * b2 + a3 * b3,
            p11 == (a1 * b1) * (a1 * b1),
            p22 == (a2 * b2) * (a2 * b2),
            p33 == (a3 * b3) * (a3 * b3),
            x12 == (a1 * b1) * (a2 * b2),
            x13 == (a1 * b1) * (a3 * b3),
            x23 == (a2 * b2) * (a3 * b3),
    ;
    assert((a1 * a1) * (b1 * b1) == p11 && (a2 * a2) * (b2 * b2) == p22 && (a3 * a3) * (b3 * b3)
        == p33) by (nonlinear_arith)
        requires
            p11 == (a1 * b1) * (a1 * b1),
            p22 == (a2 * b2) * (a2 * b2),
            p33 == (a3 * b3) * (a3 * b3),
    ;
    assert((a1 * a1) * (b2 * b2) == s12 && (a2 * a2) * (b1 * b1) == s21) by (nonlinear_arith)
        requires
            s12 == (a1 * b2) * (a1 * b2),
            s21 == (a2 * b1) * (a2 * b1),
    ;
    assert((a1 * a1) * (b3 * b3) == s13 && (a3 * a3) * (b1 * b1) == s31) by (nonlinear_arith)
        requires
            s13 == (a1 * b3) * (a1 * b3),
            s31 == (a3 * b1) * (a3 * b1),
    ;
    assert((a2 * a2) * (b3 * b3) == s23 && (a3 * a3) * (b2 * b2) == s32) by (nonlinear_arith)
        requires
            s23 == (a2 * b3) * (a2 * b3),
            s32 == (a3 * b2) * (a3 * b2),
    ;
    let (g1, g2, g3) = (a1 * a1, a2 * a2, a3 * a3);
    let (h1, h2, h3) = (b1 * b1, b2 * b2, b3 * b3);
    assert(qa * qb == g1 * h1 + g1 * h2 + g1 * h3 + g2 * h1 + g2 * h2 + g2 * h3 + g3 * h1 + g3 * h2
        + g3 * h3) by (nonlinear_arith)
        requires
            qa == g1 + g2 + g3,
            qb == h1 + h2 + h3,
    ;
    assert(c1 * c1 == s23 + s32 - 2 * x23) by (nonlinear_arith)
        requires
            c1 == a2 * b3 - a3 * b2,
            s23 == (a2 * b3) * (a2 * b3),
            s32 == (a3 * b2) * (a3 * b2),
            x23 == (a2 * b2) * (a3 * b3),
    ;
    assert(c2 * c2 == s31 + s13 - 2 * x13) by (nonlinear_arith)
        requires
            c2 == a3 * b1 - a1 * b3,
            s13 == (a1 * b3) * (a1 * b3),
            s31 == (a3 * b1) * (a3 * b1),
            x13 == (a1 * b1) * (a3 * b3),
    ;
    assert(c3 * c3 == s12 + s21 - 2 * x12) by (nonlinear_arith)
        requires
            c3 == a1 * b2 - a2 * b1,
            s12 == (a1 * b2) * (a1 * b2),
            s21 == (a2 * b1) * (a2 * b1),
            x12 == (a1 * b1) * (a2 * b2),
    ;
    assert(qa * qb - d * d == c1 * c1 + c2 * c2 + c3 * c3);
}

/// The components of a vector of nearly unit length are at most 1 + 2^-18
/// in size, and its squared length at most 1 + 2^-18.
proof fn lemma_near_unit_bounds(v: Vec3f32)
    requires
        near_unit(v),
    ensures
        within_scale(v, 150),
        abs(v.x.scaled()) <= unit_scale() + pow2(131),
        abs(v.y.scaled()) <= unit_scale() + pow2(131),
        abs(v.z.scaled()) <= unit_scale() + pow2(131),
        sum_of_squares(v) <= pow2(298) + pow2(280),
        abs(sum_of_squares(v) - pow2(298)) <= pow2(280),
{
    let unit = unit_scale();
    let q = sum_of_squares(v);
    let bound = unit + pow2(131);
    lemma2_to64();
    lemma_pow2_adds(149, 149);
    lemma_pow2_adds(18, 280);
    lemma_pow2_adds(149, 131);
    lemma_pow2_adds(131, 131);
    lemma_pow2_multiples(280);
    lemma_pow2_multiples(149);
    lemma_pow2_le(131, 149);
    lemma_pow2_pos(262);
    assert(bound * bound == pow2(298) + 2 * pow2(280) + pow2(262)) by (nonlinear_arith)
        requires
            bound == unit + pow2(131),
            unit * unit == pow2(298),
            unit * pow2(131) == pow2(280),
            pow2(131) * pow2(131) == pow2(262),
    ;
    let (x, y, z) = (v.x.scaled(), v.y.scaled(), v.z.scaled());
    assert(x * x >= 0 && y * y >= 0 && z * z >= 0) by (nonlinear_arith);
    lemma_square_at_most(x, q, bound);
    lemma_square_at_most(y, q, bound);
    lemma_square_at_most(z, q, bound);
}

/// The number two is 2^150 units.
proof fn lemma_two()
    ensures
        (Binary32 { bits: TWO_BITS }).scaled() == pow2(150),
        (Binary32 { bits: TWO_BITS }).is_finite(),
{
    lemma_magnitude_linear(127, 0x80_0000);
    lemma_pow2_adds(23, 127);
    lemma2_to64();
}

/// One component of the mirror image: it is at most 4 in size, and within
/// 19 parts in 2^20 of `x - 2 * n * d`, where `d` is the exact dot product
/// that `d0` stands for.
#[verifier::rlimit(40)]
proof fn lemma_mirror_component(x: Binary32, n: Binary32, d0: Binary32, d: int)
    requires
        x.is_finite(),
        n.is_finite(),
        d0.is_finite(),
        abs(x.scaled()) <= unit_scale() + pow2(131),
        abs(n.scaled()) <= unit_scale() + pow2(131),
        abs(d) <= pow2(298) + pow2(280),
        abs(d0.scaled() * unit_scale() - d) <= 7 * pow2(278),
    ensures
        sized(x.spec_sub(n.spec_mul(Binary32 { bits: TWO_BITS }).spec_mul(d0)), 151),
        abs(
            x.spec_sub(n.spec_mul(Binary32 { bits: TWO_BITS }).spec_mul(d0)).scaled() * pow2(298)
                - (x.scaled() * pow2(298) - 2 * (n.scaled() * d)),
        ) <= 19 * pow2(427),
{
    let unit = unit_scale();
    let u2 = pow2(298) as int;
    let two = Binary32 { bits: TWO_BITS };
    let n2 = n.spec_mul(two);
    let w = n2.spec_mul(d0);
    let r = x.spec_sub(w);
    let (xv, nv) = (x.scaled(), n.scaled());
    lemma_two();
    lemma2_to64();
    lemma_pow2_pos(149);
    lemma_pow2_adds(149, 149);
    lemma_pow2_multiples(149);
    lemma_pow2_multiples(150);
    lemma_pow2_multiples(129);
    lemma_pow2_multiples(131);
    lemma_pow2_multiples(278);
    lemma_pow2_multiples(298);
    lemma_pow2_multiples(427);
    lemma_pow2_le(131, 149);
    lemma_pow2_le(133, 149);
    lemma_pow2_le(280, 298);
    lemma_pow2_adds(129, 149);
    lemma_pow2_adds(150, 149);
    lemma_pow2_adds(131, 149);
    // twice the normal
    lemma_sized_product(n, two, 150, 150);
    let e2 = n2.scaled() - 2 * nv;
    assert(n2.scaled() * unit - nv * two.scaled() == e2 * unit) by (nonlinear_arith)
        requires
            e2 == n2.scaled() - 2 * nv,
            two.scaled() == 2 * unit,
    ;
    lemma_cancel_bound(e2, pow2(129) as int, unit);
    assert(abs(n2.scaled()) <= 2 * unit + pow2(133));
    // the dot product that came in
    let e0 = d0.scaled() * unit - d;
    lemma_pow2_adds(133, 149);
    lemma_pow2_multiples(280);
    lemma_pow2_pos(280);
    assert(abs(d0.scaled() * unit) <= (unit + pow2(133)) * unit) by (nonlinear_arith)
        requires
            abs(d0.scaled() * unit) <= pow2(298) + pow2(280) + 7 * pow2(278),
            unit * unit == pow2(298),
            pow2(133) * unit >= 4 * pow2(280),
            4 * pow2(278) == pow2(280),
            pow2(280) > 0,
    ;
    lemma_cancel_bound(d0.scaled(), unit + pow2(133), unit);
    // their product
    lemma_sized_product(n2, d0, 151, 150);
    let ew = w.scaled() * unit - n2.scaled() * d0.scaled();
    assert(abs(ew) <= pow2(279));
    lemma_abs_product(n2.scaled(), d0.scaled(), 2 * unit + pow2(133), unit + pow2(133));
    lemma_pow2_adds(133, 149);
    lemma_pow2_adds(133, 133);
    lemma_pow2_adds(136, 149);
    lemma_pow2_multiples(282);
    lemma_pow2_le(266, 282);
    lemma_pow2_le(279, 282);
    assert((2 * unit + pow2(133)) * (unit + pow2(133)) == 2 * pow2(298) + 3 * pow2(282) + pow2(266))
        by (nonlinear_arith)
        requires
            unit * unit == pow2(298),
            unit * pow2(133) == pow2(282),
            pow2(133) * pow2(133) == pow2(266),
    ;
    assert((2 * unit + pow2(136)) * unit == 2 * pow2(298) + pow2(285)) by (nonlinear_arith)
        requires
            unit * unit == pow2(298),
            pow2(136) * unit == pow2(285),
    ;
    assert(pow2(285) == 8 * pow2(282));
    lemma_cancel_bound(w.scaled(), 2 * unit + pow2(136), unit);
    // the difference
    lemma_pow2_le(137, 149);
    lemma_pow2_le(151, 276);
    lemma_pow2_multiples(136);
    lemma_pow2_adds(23, 129);
    lemma_pow2_le(22, 151);
    lemma_sub_error(x, w);
    let er = r.scaled() - (xv - w.scaled());
    assert(abs(er) <= pow2(129));
    lemma_pow2_le(129, 137);
    assert(abs(r.scaled()) <= pow2(151));
    // together, in units of 2^-447
    let known = n2.scaled() * d0.scaled();
    assert(w.scaled() * u2 == known * unit + ew * unit) by (nonlinear_arith)
        requires
            ew == w.scaled() * unit - known,
            u2 == unit * unit,
    ;
    assert(known * unit == (2 * nv + e2) * (d + e0)) by (nonlinear_arith)
        requires
            known == n2.scaled() * d0.scaled(),
            e2 == n2.scaled() - 2 * nv,
            e0 == d0.scaled() * unit - d,
    ;
    let (ne0, e2d, e2e0) = (nv * e0, e2 * d, e2 * e0);
    assert((2 * nv + e2) * (d + e0) == 2 * (nv * d) + 2 * ne0 + e2d + e2e0) by (nonlinear_arith)
        requires
            ne0 == nv * e0,
            e2d == e2 * d,
            e2e0 == e2 * e0,
    ;
    lemma_abs_product(nv, e0, unit + pow2(131), (7 * pow2(278)) as int);
    lemma_abs_product(e2, d, pow2(129) as int, (pow2(298) + pow2(280)) as int);
    lemma_abs_product(e2, e0, pow2(129) as int, (7 * pow2(278)) as int);
    lemma_abs_product(ew, unit, pow2(279) as int, unit);
    lemma_abs_product(er, u2, pow2(129) as int, u2);
    lemma_pow2_adds(278, 149);
    lemma_pow2_adds(278, 131);
    lemma_pow2_adds(129, 298);
    lemma_pow2_adds(129, 280);
    lemma_pow2_adds(129, 278);
    lemma_pow2_adds(279, 149);
    lemma_pow2_le(409, 427);
    lemma_pow2_le(407, 427);
    assert((unit + pow2(131)) * (7 * pow2(278)) == 7 * pow2(427) + 7 * pow2(409))
        by (nonlinear_arith)
        requires
            unit * pow2(278) == pow2(427),
            pow2(131) * pow2(278) == pow2(409),
    ;
    assert(pow2(129) * (pow2(298) + pow2(280)) == pow2(427) + pow2(409)) by (nonlinear_arith)
        requires
            pow2(129) * pow2(298) == pow2(427),
            pow2(129) * pow2(280) == pow2(409),
    ;
    assert(pow2(129) * (7 * pow2(278)) == 7 * pow2(407)) by (nonlinear_arith)
        requires
            pow2(129) * pow2(278) == pow2(407),
    ;
    lemma_pow2_adds(18, 409);
    lemma_pow2_adds(20, 407);
    assert(r.scaled() * u2 - (xv * u2 - 2 * (nv * d)) == er * u2 - (2 * ne0 + e2d + e2e0 + ew
        * unit)) by (nonlinear_arith)
        requires
            er == r.scaled() - (xv - w.scaled()),
            w.scaled() * u2 == known * unit + ew * unit,
            known * unit == 2 * (nv * d) + 2 * ne0 + e2d + e2e0,
    ;
}

/// A mirror image leaves the surface at the angle at which the incoming
/// direction met it: for an incoming direction and a normal of nearly unit
/// length, the dot product of the mirror image with the normal is the
/// negative of the dot product of the incoming direction with the normal,
/// to within 2^-13.
#[verifier::rlimit(40)]
pub proof fn lemma_mirror_keeps_the_angle(v: Vec3f32, n: Vec3f32)
    requires
        near_unit(v),
        near_unit(n),
    ensures
        reflect_spec(v, n).spec_dot(n).is_finite(),
        v.spec_dot(n).is_finite(),
        0x2000 * abs(reflect_spec(v, n).spec_dot(n).scaled() + v.spec_dot(n).scaled())
            <= unit_scale(),
{
    let unit = unit_scale();
    let u2 = pow2(298) as int;
    let d = exact_dot(v, n);
    let q = sum_of_squares(n);
    let qv = sum_of_squares(v);
    let d0 = v.spec_dot(n);
    let r = reflect_spec(v, n);
    let d1 = r.spec_dot(n);
    let (x1, x2, x3) = (v.x.scaled(), v.y.scaled(), v.z.scaled());
    let (n1, n2, n3) = (n.x.scaled(), n.y.scaled(), n.z.scaled());
    lemma_near_unit_bounds(v);
    lemma_near_unit_bounds(n);
    lemma2_to64();
    lemma_pow2_pos(149);
    lemma_pow2_adds(149, 149);
    lemma_pow2_multiples(278);
    lemma_pow2_multiples(279);
    lemma_pow2_multiples(280);
    lemma_pow2_multiples(576);
    lemma_pow2_multiples(581);
    lemma_pow2_multiples(427);
    lemma_pow2_adds(298, 298);
    lemma_pow2_adds(298, 280);
    lemma_pow2_adds(280, 280);
    lemma_pow2_le(560, 576);
    lemma_pow2_le(409, 427);
    // the exact dot product is at most 1 + 2^-18 in size
    lemma_cauchy_schwarz(x1, x2, x3, n1, n2, n3);
    let top = pow2(298) + pow2(280);
    assert(qv * q <= top * top) by (nonlinear_arith)
        requires
            0 <= qv <= top,
            0 <= q <= top,
    ;
    assert(d * d >= 0) by (nonlinear_arith);
    lemma_square_at_most(d, qv * q, top as int);
    // the dot product of the incoming direction
    lemma_dot_error(v, n, 150, 150);
    let e0 = d0.scaled() * unit - d;
    // the mirror image
    assert(r.x == v.x.spec_sub(n.x.spec_mul(Binary32 { bits: TWO_BITS }).spec_mul(d0)));
    lemma_mirror_component(v.x, n.x, d0, d);
    lemma_mirror_component(v.y, n.y, d0, d);
    lemma_mirror_component(v.z, n.z, d0, d);
    let a1 = r.x.scaled() * u2 - (x1 * u2 - 2 * (n1 * d));
    let a2 = r.y.scaled() * u2 - (x2 * u2 - 2 * (n2 * d));
    let a3 = r.z.scaled() * u2 - (x3 * u2 - 2 * (n3 * d));
    // its dot product with the normal
    lemma_dot_error(r, n, 151, 150);
    let ed = d1.scaled() * unit - exact_dot(r, n);
    assert(abs(ed) <= 14 * pow2(278));
    let (an1, an2, an3) = (a1 * n1, a2 * n2, a3 * n3);
    lemma_abs_product(a1, n1, (19 * pow2(427)) as int, unit + pow2(131));
    lemma_abs_product(a2, n2, (19 * pow2(427)) as int, unit + pow2(131));
    lemma_abs_product(a3, n3, (19 * pow2(427)) as int, unit + pow2(131));
    lemma_pow2_adds(427, 149);
    lemma_pow2_adds(427, 131);
    lemma_pow2_le(558, 576);
    assert((19 * pow2(427)) * (unit + pow2(131)) == 19 * pow2(576) + 19 * pow2(558))
        by (nonlinear_arith)
        requires
            pow2(427) * unit == pow2(576),
            pow2(427) * pow2(131) == pow2(558),
    ;
    lemma_pow2_adds(18, 558);
    // the exact part
    let dq = d * q;
    let du = d * u2;
    assert(exact_dot(r, n) * u2 == du - 2 * dq + an1 + an2 + an3) by {
        lemma_component_times(r.x.scaled(), x1, n1, d, u2, a1);
        lemma_component_times(r.y.scaled(), x2, n2, d, u2, a2);
        lemma_component_times(r.z.scaled(), x3, n3, d, u2, a3);
        assert(exact_dot(r, n) * u2 == (r.x.scaled() * n1) * u2 + (r.y.scaled() * n2) * u2 + (
        r.z.scaled() * n3) * u2) by (nonlinear_arith)
            requires
                exact_dot(r, n) == r.x.scaled() * n1 + r.y.scaled() * n2 + r.z.scaled() * n3,
        ;
        assert(du == (x1 * n1) * u2 + (x2 * n2) * u2 + (x3 * n3) * u2) by (nonlinear_arith)
            requires
                du == d * u2,
                d == x1 * n1 + x2 * n2 + x3 * n3,
        ;
        assert(dq == d * (n1 * n1) + d * (n2 * n2) + d * (n3 * n3)) by (nonlinear_arith)
            requires
                dq == d * q,
                q == n1 * n1 + n2 * n2 + n3 * n3,
        ;
    }
    // the whole, in units of 2^-596
    let total = (d1.scaled() + d0.scaled()) * unit;
    assert(total * u2 == exact_dot(r, n) * u2 + ed * u2 + du + e0 * u2) by (nonlinear_arith)
        requires
            total == (d1.scaled() + d0.scaled()) * unit,
            ed == d1.scaled() * unit - exact_dot(r, n),
            e0 == d0.scaled() * unit - d,
            du == d * u2,
    ;
    let gap = u2 - q;
    assert(2 * du - 2 * dq == 2 * (d * gap)) by (nonlinear_arith)
        requires
            du == d * u2,
            dq == d * q,
            gap == u2 - q,
    ;
    lemma_abs_product(d, gap, top as int, pow2(280) as int);
    assert(top * pow2(280) == pow2(578) + pow2(560)) by (nonlinear_arith)
        requires
            top == pow2(298) + pow2(280),
            pow2(298) * pow2(280) == pow2(578),
            pow2(280) * pow2(280) == pow2(560),
    ;
    lemma_abs_product(ed, u2, (14 * pow2(278)) as int, u2);
    lemma_abs_product(e0, u2, (7 * pow2(278)) as int, u2);
    lemma_pow2_adds(278, 298);
    assert((14 * pow2(278)) * u2 == 14 * pow2(576) && (7 * pow2(278)) * u2 == 7 * pow2(576))
        by (nonlinear_arith)
        requires
            pow2(278) * u2 == pow2(576),
    ;
    lemma_pow2_adds(2, 576);
    assert(abs(total * u2) <= 128 * pow2(576));
    lemma_pow2_adds(7, 576);
    lemma_pow2_adds(285, 298);
    lemma_pow2_pos(298);
    lemma_cancel_bound(total, pow2(285) as int, u2);
    lemma_pow2_adds(136, 149);
    lemma_cancel_bound(d1.scaled() + d0.scaled(), pow2(136) as int, unit);
    lemma_pow2_adds(13, 136);
}

/// One term of the exact dot product of the mirror image and the normal.
proof fn lemma_component_times(rv: int, x: int, n: int, d: int, u2: int, a: int)
    requires
        a == rv * u2 - (x * u2 - 2 * (n * d)),
    ensures
        (rv * n) * u2 == (x * n) * u2 - 2 * (d * (n * n)) + a * n,
{
    assert((rv * n) * u2 == (rv * u2) * n) by (nonlinear_arith);
    assert((x * u2) * n == (x * n) * u2) by (nonlinear_arith);
    assert((n * d) * n == d * (n * n)) by (nonlinear_arith);
    assert((rv * u2) * n == (x * u2) * n - 2 * ((n * d) * n) + a * n) by (nonlinear_arith)
        requires
            rv * u2 == a + (x * u2 - 2 * (n * d)),
    ;
}

} // verus!
