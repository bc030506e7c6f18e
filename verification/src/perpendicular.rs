//! The cross product is orthogonal to its factors to within four parts in a
//! million of what their sizes allow.
//!
//! Each rounding is followed by its share of the exact value, so that the
//! bound is over the sizes of the vectors themselves and not over a power
//! of two above them.

use vstd::prelude::*;
use vstd::arithmetic::power2::*;
use crate::binary32::{Binary32, unit_scale};
use crate::accuracy::{
    abs, within_scale, lemma_abs_product, lemma_cancel_bound, lemma_mul_error, lemma_add_error,
    lemma_sub_error,
};
use crate::rounding::lemma_pow2_le;
use crate::vec3f::Vec3f32;
use crate::orthogonal::lemma_triple_cancels;
use crate::unit_length::sum_of_squares;

verus! {

/// A multiple of the unit is as large as the multiple says.
proof fn lemma_abs_times(x: int, unit: int)
    requires
        unit > 0,
    ensures
        abs(x * unit) == abs(x) * unit,
{
    assert(abs(x * unit) == abs(x) * unit) by (nonlinear_arith)
        requires
            unit > 0,
    ;
}

/// An error of rounding, known in units, is known in multiples of them:
/// what holds of `e` and `s` holds of `e * unit` and `s * unit`.
proof fn lemma_error_times(e: int, s: int, half: int, unit: int)
    requires
        unit > 0,
        0x80_0000 * abs(e) <= abs(s) + half,
    ensures
        0x80_0000 * abs(e * unit) <= abs(s * unit) + half * unit,
{
    lemma_abs_times(e, unit);
    lemma_abs_times(s, unit);
    assert((0x80_0000 * abs(e)) * unit <= (abs(s) + half) * unit) by (nonlinear_arith)
        requires
            0x80_0000 * abs(e) <= abs(s) + half,
            unit > 0,
    ;
    assert((0x80_0000 * abs(e)) * unit == 0x80_0000 * (abs(e) * unit)) by (nonlinear_arith);
    assert((abs(s) + half) * unit == abs(s) * unit + half * unit) by (nonlinear_arith);
}

/// The product of two numbers of at most `al` and `be` in size, where
/// `al * be` is from 2^-119 to 2^80: it lies within one part in 2^23, and
/// a 256th of that, of the exact product, and is as near to `al * be` in
/// size.
proof fn lemma_product_known(x: Binary32, y: Binary32, al: int, be: int)
    requires
        x.is_finite(),
        y.is_finite(),
        abs(x.scaled()) <= al,
        abs(y.scaled()) <= be,
        pow2(179) <= al * be <= pow2(378),
    ensures
        x.spec_mul(y).is_finite(),
        256 * (0x80_0000 * abs(x.spec_mul(y).scaled() * unit_scale() - x.scaled() * y.scaled()))
            <= 257 * (al * be),
        256 * abs(x.spec_mul(y).scaled() * unit_scale()) <= 257 * (al * be),
{
    let unit = unit_scale();
    let m = al * be;
    let p = x.spec_mul(y);
    let exact = x.scaled() * y.scaled();
    lemma_abs_product(x.scaled(), y.scaled(), al, be);
    lemma2_to64();
    lemma_pow2_adds(276, 149);
    lemma_pow2_le(378, 425);
    lemma_pow2_adds(22, 149);
    lemma_pow2_adds(8, 171);
    lemma_mul_error(x, y);
    let e = p.scaled() * unit - exact;
    assert(0x80_0000 * abs(e) <= m + 0x40_0000 * unit);
    assert(256 * (0x40_0000 * unit) <= m);
}

/// One component of a cross product, the difference of two such products:
/// it lies within two parts in 2^23, and a little, of `al * be` from the
/// exact difference, and is at most twice `al * be` in size, and a
/// little.
proof fn lemma_entry_known(
    x1: Binary32,
    y1: Binary32,
    x2: Binary32,
    y2: Binary32,
    al: int,
    be: int,
)
    requires
        x1.is_finite(),
        y1.is_finite(),
        x2.is_finite(),
        y2.is_finite(),
        abs(x1.scaled()) <= al,
        abs(x2.scaled()) <= al,
        abs(y1.scaled()) <= be,
        abs(y2.scaled()) <= be,
        pow2(179) <= al * be <= pow2(378),
    ensures
        x1.spec_mul(y1).spec_sub(x2.spec_mul(y2)).is_finite(),
        128 * abs(x1.spec_mul(y1).spec_sub(x2.spec_mul(y2)).scaled() * unit_scale()) <= 258 * (al
            * be),
        128 * (0x80_0000 * abs(
            x1.spec_mul(y1).spec_sub(x2.spec_mul(y2)).scaled() * unit_scale() - (x1.scaled()
                * y1.scaled() - x2.scaled() * y2.scaled()),
        )) <= 515 * (al * be),
{
    let unit = unit_scale();
    let m = al * be;
    let pa = x1.spec_mul(y1);
    let pb = x2.spec_mul(y2);
    let c = pa.spec_sub(pb);
    lemma_product_known(x1, y1, al, be);
    lemma_product_known(x2, y2, al, be);
    lemma2_to64();
    lemma_pow2_pos(149);
    lemma_pow2_adds(276, 149);
    lemma_pow2_adds(22, 149);
    lemma_pow2_adds(7, 171);
    lemma_pow2_unfold(179);
    lemma_pow2_adds(2, 378);
    lemma_pow2_le(380, 425);
    let diff = pa.scaled() - pb.scaled();
    assert(diff * unit == pa.scaled() * unit - pb.scaled() * unit) by (nonlinear_arith)
        requires
            diff == pa.scaled() - pb.scaled(),
    ;
    assert(256 * abs(diff * unit) <= 514 * m);
    assert(abs(diff * unit) <= pow2(276) * unit);
    lemma_cancel_bound(diff, pow2(276) as int, unit);
    lemma_sub_error(pa, pb);
    let ec = c.scaled() - diff;
    lemma_error_times(ec, diff, 0x40_0000, unit);
    assert(128 * (0x80_0000 * abs(ec * unit)) <= 258 * m);
    let ea = pa.scaled() * unit - x1.scaled() * y1.scaled();
    let eb = pb.scaled() * unit - x2.scaled() * y2.scaled();
    assert(c.scaled() * unit - (x1.scaled() * y1.scaled() - x2.scaled() * y2.scaled()) == ec * unit
        + ea - eb) by (nonlinear_arith)
        requires
            ec == c.scaled() - (pa.scaled() - pb.scaled()),
            ea == pa.scaled() * unit - x1.scaled() * y1.scaled(),
            eb == pb.scaled() * unit - x2.scaled() * y2.scaled(),
    ;
    assert(c.scaled() * unit == diff * unit + ec * unit) by (nonlinear_arith)
        requires
            ec == c.scaled() - diff,
    ;
}

/// One term of the dot product of such a cross product with a vector: a
/// component `c`, known as `i`, times a number of at most `ga` in size.
proof fn lemma_term_known(c: Binary32, v: Binary32, i: int, m: int, ga: int)
    requires
        c.is_finite(),
        v.is_finite(),
        abs(v.scaled()) <= ga,
        0 <= m <= pow2(378),
        0 <= ga <= pow2(189),
        ga * m >= pow2(327),
        128 * abs(c.scaled() * unit_scale()) <= 258 * m,
        128 * (0x80_0000 * abs(c.scaled() * unit_scale() - i)) <= 515 * m,
    ensures
        c.spec_mul(v).is_finite(),
        128 * abs(c.spec_mul(v).scaled() * pow2(298)) <= 259 * (ga * m),
        128 * (0x80_0000 * abs(c.spec_mul(v).scaled() * pow2(298) - i * v.scaled())) <= 774 * (ga
            * m),
{
    let unit = unit_scale();
    let room = ga * m;
    let q = c.spec_mul(v);
    let exact = c.scaled() * v.scaled();
    let held = c.scaled() * unit;
    lemma2_to64();
    lemma_pow2_pos(149);
    lemma_pow2_adds(149, 149);
    lemma_pow2_adds(276, 149);
    lemma_pow2_adds(425, 149);
    lemma_pow2_adds(22, 298);
    lemma_pow2_adds(7, 320);
    lemma_pow2_adds(189, 378);
    lemma_pow2_adds(2, 567);
    lemma_pow2_le(569, 574);
    assert(room <= pow2(189) * pow2(378)) by (nonlinear_arith)
        requires
            room == ga * m,
            0 <= ga <= pow2(189),
            0 <= m <= pow2(378),
    ;
    lemma_abs_product(128 * held, v.scaled(), 258 * m, ga);
    assert((128 * held) * v.scaled() == 128 * (exact * unit)) by (nonlinear_arith)
        requires
            held == c.scaled() * unit,
            exact == c.scaled() * v.scaled(),
    ;
    assert((258 * m) * ga == 258 * room) by (nonlinear_arith)
        requires
            room == ga * m,
    ;
    assert(128 * abs(exact * unit) <= 258 * room);
    assert(abs(exact * unit) <= pow2(425) * unit);
    lemma_cancel_bound(exact, pow2(425) as int, unit);
    lemma_mul_error(c, v);
    let e = q.scaled() * unit - exact;
    lemma_error_times(e, exact, 0x40_0000 * unit, unit);
    assert((0x40_0000 * unit) * unit == 0x40_0000 * pow2(298)) by (nonlinear_arith)
        requires
            unit * unit == pow2(298),
    ;
    assert(128 * (0x80_0000 * abs(e * unit)) <= 259 * room);
    let known = held - i;
    lemma_abs_product(128 * (0x80_0000 * known), v.scaled(), 515 * m, ga);
    assert((128 * (0x80_0000 * known)) * v.scaled() == 128 * (0x80_0000 * (known * v.scaled())))
        by (nonlinear_arith);
    assert((515 * m) * ga == 515 * room) by (nonlinear_arith)
        requires
            room == ga * m,
    ;
    assert(128 * (0x80_0000 * abs(known * v.scaled())) <= 515 * room);
    assert(q.scaled() * pow2(298) - i * v.scaled() == e * unit + known * v.scaled())
        by (nonlinear_arith)
        requires
            e == q.scaled() * unit - exact,
            known == c.scaled() * unit - i,
            exact == c.scaled() * v.scaled(),
            unit * unit == pow2(298),
    ;
    assert(q.scaled() * pow2(298) == e * unit + exact * unit) by (nonlinear_arith)
        requires
            e == q.scaled() * unit - exact,
            unit * unit == pow2(298),
    ;
}

/// The rounded sum of two numbers known in multiples of 2^-298: the error
/// of the sum, in those multiples too.
proof fn lemma_sum_known(x: Binary32, y: Binary32, room: int, k: int)
    requires
        x.is_finite(),
        y.is_finite(),
        pow2(327) <= room <= pow2(567),
        0 <= k <= 1000,
        128 * abs((x.scaled() + y.scaled()) * pow2(298)) <= k * room,
    ensures
        x.spec_add(y).is_finite(),
        128 * (0x80_0000 * abs((x.spec_add(y).scaled() - (x.scaled() + y.scaled())) * pow2(298)))
            <= (k + 1) * room,
        128 * abs(x.spec_add(y).scaled() * pow2(298)) <= (k + 1) * room,
{
    let fine = pow2(298) as int;
    let s = x.scaled() + y.scaled();
    let e = x.spec_add(y).scaled() - s;
    lemma2_to64();
    lemma_pow2_pos(298);
    lemma_pow2_adds(276, 298);
    lemma_pow2_adds(22, 298);
    lemma_pow2_adds(7, 320);
    lemma_pow2_adds(3, 567);
    lemma_pow2_le(570, 574);
    assert(k * room <= 1000 * pow2(567)) by (nonlinear_arith)
        requires
            0 <= k <= 1000,
            0 <= room <= pow2(567),
    ;
    assert(abs(s * fine) <= pow2(276) * fine);
    lemma_cancel_bound(s, pow2(276) as int, fine);
    lemma_add_error(x, y);
    lemma_error_times(e, s, 0x40_0000, fine);
    assert(x.spec_add(y).scaled() * fine == s * fine + e * fine) by (nonlinear_arith)
        requires
            e == x.spec_add(y).scaled() - s,
    ;
    assert((k + 1) * room == k * room + room) by (nonlinear_arith);
    assert((k + 1) * room <= 0x80_0000 * room) by (nonlinear_arith)
        requires
            0 <= k <= 1000,
            room >= 0,
    ;
}

/// The dot product of such a cross product `c`, whose components are known
/// as `i1`, `i2` and `i3`, with a vector `v` to which the known
/// components are orthogonal: at most one part in 2^18 of `ga * m` in
/// size.
proof fn lemma_dot_known(c: Vec3f32, v: Vec3f32, i1: int, i2: int, i3: int, m: int, ga: int)
    requires
        c.is_finite(),
        v.is_finite(),
        abs(v.x.scaled()) <= ga,
        abs(v.y.scaled()) <= ga,
        abs(v.z.scaled()) <= ga,
        0 <= m <= pow2(378),
        0 <= ga <= pow2(189),
        ga * m >= pow2(327),
        128 * abs(c.x.scaled() * unit_scale()) <= 258 * m,
        128 * abs(c.y.scaled() * unit_scale()) <= 258 * m,
        128 * abs(c.z.scaled() * unit_scale()) <= 258 * m,
        128 * (0x80_0000 * abs(c.x.scaled() * unit_scale() - i1)) <= 515 * m,
        128 * (0x80_0000 * abs(c.y.scaled() * unit_scale() - i2)) <= 515 * m,
        128 * (0x80_0000 * abs(c.z.scaled() * unit_scale() - i3)) <= 515 * m,
        i1 * v.x.scaled() + i2 * v.y.scaled() + i3 * v.z.scaled() == 0,
    ensures
        c.spec_dot(v).is_finite(),
        0x4_0000 * abs(c.spec_dot(v).scaled() * pow2(298)) <= ga * m,
{
    let fine = pow2(298) as int;
    let room = ga * m;
    let qa = c.x.spec_mul(v.x);
    let qb = c.y.spec_mul(v.y);
    let qc = c.z.spec_mul(v.z);
    let sa = qa.spec_add(qb);
    let d = sa.spec_add(qc);
    assert(d == c.spec_dot(v));
    lemma_pow2_adds(189, 378);
    assert(room <= pow2(189) * pow2(378)) by (nonlinear_arith)
        requires
            room == ga * m,
            0 <= ga <= pow2(189),
            0 <= m <= pow2(378),
    ;
    lemma_term_known(c.x, v.x, i1, m, ga);
    lemma_term_known(c.y, v.y, i2, m, ga);
    lemma_term_known(c.z, v.z, i3, m, ga);
    let ta = qa.scaled() * fine - i1 * v.x.scaled();
    let tb = qb.scaled() * fine - i2 * v.y.scaled();
    let tc = qc.scaled() * fine - i3 * v.z.scaled();
    assert((qa.scaled() + qb.scaled()) * fine == qa.scaled() * fine + qb.scaled() * fine)
        by (nonlinear_arith);
    lemma_sum_known(qa, qb, room, 518);
    let ea = sa.scaled() - (qa.scaled() + qb.scaled());
    assert((sa.scaled() + qc.scaled()) * fine == sa.scaled() * fine + qc.scaled() * fine)
        by (nonlinear_arith);
    lemma_sum_known(sa, qc, room, 778);
    let eb = d.scaled() - (sa.scaled() + qc.scaled());
    assert(d.scaled() * fine == ta + tb + tc + ea * fine + eb * fine) by (nonlinear_arith)
        requires
            ta == qa.scaled() * fine - i1 * v.x.scaled(),
            tb == qb.scaled() * fine - i2 * v.y.scaled(),
            tc == qc.scaled() * fine - i3 * v.z.scaled(),
            ea == sa.scaled() - (qa.scaled() + qb.scaled()),
            eb == d.scaled() - (sa.scaled() + qc.scaled()),
            i1 * v.x.scaled() + i2 * v.y.scaled() + i3 * v.z.scaled() == 0,
    ;
    assert(128 * (0x80_0000 * abs(d.scaled() * fine)) <= 3620 * room);
}

/// The size of the largest component of `v`, in units of 2^-149.
pub open spec fn largest(v: Vec3f32) -> int {
    let x = abs(v.x.scaled());
    let y = abs(v.y.scaled());
    let z = abs(v.z.scaled());
    if x >= y && x >= z {
        x
    } else if y >= z {
        y
    } else {
        z
    }
}

/// The larger of two numbers.
pub open spec fn larger(x: int, y: int) -> int {
    if x >= y {
        x
    } else {
        y
    }
}

/// The dot product of the cross product of `a` and `b` with `v`, which is
/// `a` or `b`, where `al`, `be` and `ga` bound the components of the
/// three.
proof fn lemma_orthogonal_within(a: Vec3f32, b: Vec3f32, v: Vec3f32, al: int, be: int, ga: int)
    requires
        a.is_finite(),
        b.is_finite(),
        v == a || v == b,
        largest(a) <= al <= pow2(189),
        largest(b) <= be <= pow2(189),
        largest(v) <= ga <= pow2(189),
        al * be >= pow2(198),
        ga * (al * be) >= pow2(327),
    ensures
        a.spec_cross(b).spec_dot(v).is_finite(),
        0x4_0000 * abs(a.spec_cross(b).spec_dot(v).scaled() * pow2(298)) <= ga * (al * be),
{
    let c = a.spec_cross(b);
    let (a1, a2, a3) = (a.x.scaled(), a.y.scaled(), a.z.scaled());
    let (b1, b2, b3) = (b.x.scaled(), b.y.scaled(), b.z.scaled());
    let i1 = a2 * b3 - a3 * b2;
    let i2 = a3 * b1 - a1 * b3;
    let i3 = a1 * b2 - a2 * b1;
    let m = al * be;
    lemma_pow2_adds(189, 189);
    lemma_pow2_le(179, 198);
    lemma_pow2_pos(198);
    assert(m <= pow2(189) * pow2(189)) by (nonlinear_arith)
        requires
            m == al * be,
            0 <= al <= pow2(189),
            0 <= be <= pow2(189),
    ;
    lemma_entry_known(a.y, b.z, a.z, b.y, al, be);
    lemma_entry_known(a.z, b.x, a.x, b.z, al, be);
    lemma_entry_known(a.x, b.y, a.y, b.x, al, be);
    lemma_triple_cancels(a1, a2, a3, b1, b2, b3);
    lemma_triple_cancels(b1, b2, b3, a1, a2, a3);
    assert(i1 * a1 + i2 * a2 + i3 * a3 == 0) by {
        assert(i1 * a1 == (a2 * b3 - a3 * b2) * a1);
        assert(i2 * a2 == (a3 * b1 - a1 * b3) * a2);
        assert(i3 * a3 == (a1 * b2 - a2 * b1) * a3);
    }
    assert(i1 * b1 + i2 * b2 + i3 * b3 == 0) by {
        assert(i1 * b1 == -((b2 * a3 - b3 * a2) * b1)) by (nonlinear_arith)
            requires
                i1 == a2 * b3 - a3 * b2,
        ;
        assert(i2 * b2 == -((b3 * a1 - b1 * a3) * b2)) by (nonlinear_arith)
            requires
                i2 == a3 * b1 - a1 * b3,
        ;
        assert(i3 * b3 == -((b1 * a2 - b2 * a1) * b3)) by (nonlinear_arith)
            requires
                i3 == a1 * b2 - a2 * b1,
        ;
    }
    lemma_dot_known(c, v, i1, i2, i3, m, ga);
}

/// The bound of the law with the floors taken away: with `al` and `be` the
/// sizes `x` and `y` held up to the floors 2^-20 and 2^-80, `al * al *
/// be` is at most one or `x * x * y`, whichever is larger.
proof fn lemma_floors_fade(x: int, y: int, al: int, be: int)
    requires
        0 <= x <= pow2(189),
        0 <= y <= pow2(189),
        al == larger(x, pow2(129) as int),
        be == larger(y, pow2(69) as int),
    ensures
        al * be >= pow2(198),
        al * (al * be) >= pow2(327),
        al * (al * be) <= larger(pow2(447) as int, (x * x) * y),
{
    let fa = pow2(129) as int;
    let fb = pow2(69) as int;
    let top = pow2(189) as int;
    lemma_pow2_pos(129);
    lemma_pow2_pos(69);
    lemma_pow2_le(129, 189);
    lemma_pow2_le(69, 189);
    lemma_pow2_adds(129, 69);
    lemma_pow2_adds(129, 198);
    lemma_pow2_adds(129, 189);
    lemma_pow2_adds(129, 318);
    lemma_pow2_adds(189, 69);
    lemma_pow2_adds(189, 258);
    let m = al * be;
    assert(m >= fa * fb) by (nonlinear_arith)
        requires
            m == al * be,
            al >= fa > 0,
            be >= fb > 0,
    ;
    assert(al * m >= fa * pow2(198)) by (nonlinear_arith)
        requires
            al >= fa > 0,
            m >= pow2(198),
    ;
    if x < fa {
        assert(al * m <= fa * (fa * top)) by (nonlinear_arith)
            requires
                m == al * be,
                al == fa,
                0 <= be <= top,
                fa > 0,
        ;
    } else if y < fb {
        assert(al * m <= top * (top * fb)) by (nonlinear_arith)
            requires
                m == al * be,
                0 <= al <= top,
                be == fb,
                fb > 0,
        ;
    } else {
        assert(al * m == (x * x) * y) by (nonlinear_arith)
            requires
                m == al * be,
                al == x,
                be == y,
        ;
    }
}

/// The dot product of a cross product with either of its factors is zero
/// to within four parts in a million. For vectors `a` and `b` whose
/// components are at most 2^40 in size, with `x` and `y` the sizes of
/// their largest components, the dot product of their cross product with
/// `a` is at most 2^-18 in size, or 2^-18 of `x * x * y`, whichever is
/// larger; and that with `b` at most 2^-18, or 2^-18 of `x * y * y`.
pub proof fn lemma_cross_product_orthogonal_by_size(a: Vec3f32, b: Vec3f32)
    requires
        within_scale(a, 189),
        within_scale(b, 189),
    ensures
        a.spec_cross(b).spec_dot(a).is_finite(),
        a.spec_cross(b).spec_dot(b).is_finite(),
        0x4_0000 * abs(a.spec_cross(b).spec_dot(a).scaled() * pow2(298)) <= larger(
            pow2(447) as int,
            (largest(a) * largest(a)) * largest(b),
        ),
        0x4_0000 * abs(a.spec_cross(b).spec_dot(b).scaled() * pow2(298)) <= larger(
            pow2(447) as int,
            (largest(b) * largest(b)) * largest(a),
        ),
{
    let x = largest(a);
    let y = largest(b);
    let al = larger(x, pow2(129) as int);
    let be = larger(y, pow2(69) as int);
    lemma_pow2_le(129, 189);
    lemma_pow2_le(69, 189);
    lemma_floors_fade(x, y, al, be);
    lemma_orthogonal_within(a, b, a, al, be, al);
    let bl = larger(y, pow2(129) as int);
    let ae = larger(x, pow2(69) as int);
    lemma_floors_fade(y, x, bl, ae);
    assert(ae * bl == bl * ae) by (nonlinear_arith);
    lemma_orthogonal_within(a, b, b, ae, bl, bl);
}

/// A number of at most a bound in size has a square of at most the
/// bound's square.
proof fn lemma_square_within(x: int, bound: int)
    requires
        abs(x) <= bound,
    ensures
        x * x <= bound * bound,
{
    assert(x * x <= bound * bound) by (nonlinear_arith)
        requires
            -bound <= x <= bound,
    ;
}

/// The square of the largest component is at most the sum of the squares.
proof fn lemma_largest_within_length(v: Vec3f32)
    ensures
        0 <= largest(v) * largest(v) <= sum_of_squares(v),
{
    let (x, y, z) = (v.x.scaled(), v.y.scaled(), v.z.scaled());
    assert(x * x >= 0 && x * x == abs(x) * abs(x)) by (nonlinear_arith);
    assert(y * y >= 0 && y * y == abs(y) * abs(y)) by (nonlinear_arith);
    assert(z * z >= 0 && z * z == abs(z) * abs(z)) by (nonlinear_arith);
}

/// The law over lengths: the dot product of the cross product of `a` and
/// `b` with `a` is at most 2^-18 in size, or 2^-18 of the squared length
/// of `a` times the length of `b`, whichever is larger; and likewise with
/// `b`. It is stated of the squares: `d` being the dot product in units of
/// 2^-149, and the squared lengths in units of 2^-298.
pub proof fn lemma_cross_product_orthogonal_by_length(a: Vec3f32, b: Vec3f32)
    requires
        within_scale(a, 189),
        within_scale(b, 189),
    ensures
        a.spec_cross(b).spec_dot(a).is_finite(),
        a.spec_cross(b).spec_dot(b).is_finite(),
        ({
            let d = 0x4_0000 * abs(a.spec_cross(b).spec_dot(a).scaled() * pow2(298));
            d * d <= larger(
                (pow2(894) as int),
                (sum_of_squares(a) * sum_of_squares(a)) * sum_of_squares(b),
            )
        }),
        ({
            let d = 0x4_0000 * abs(a.spec_cross(b).spec_dot(b).scaled() * pow2(298));
            d * d <= larger(
                (pow2(894) as int),
                (sum_of_squares(b) * sum_of_squares(b)) * sum_of_squares(a),
            )
        }),
{
    lemma_cross_product_orthogonal_by_size(a, b);
    lemma_largest_within_length(a);
    lemma_largest_within_length(b);
    lemma_pow2_adds(447, 447);
    let da = 0x4_0000 * abs(a.spec_cross(b).spec_dot(a).scaled() * pow2(298));
    let db = 0x4_0000 * abs(a.spec_cross(b).spec_dot(b).scaled() * pow2(298));
    lemma_squared_bound(da, largest(a) * largest(a), largest(b), sum_of_squares(a), sum_of_squares(b));
    lemma_squared_bound(db, largest(b) * largest(b), largest(a), sum_of_squares(b), sum_of_squares(a));
}

/// A number of at most one or `u * y`, where the square of `y` is at most
/// `t` and `u` at most `s`, has a square of at most one or `s * s * t`.
proof fn lemma_squared_bound(d: int, u: int, y: int, s: int, t: int)
    requires
        0 <= d <= larger(pow2(447) as int, u * y),
        0 <= u <= s,
        0 <= y,
        y * y <= t,
        pow2(447) * pow2(447) == pow2(894),
    ensures
        d * d <= larger(pow2(894) as int, (s * s) * t),
{
    let one = pow2(447) as int;
    if d <= one {
        lemma_square_within(d, one);
    } else {
        let w = u * y;
        assert(w >= 0) by (nonlinear_arith)
            requires
                w == u * y,
                u >= 0,
                y >= 0,
        ;
        lemma_square_within(d, w);
        assert(w * w == (u * u) * (y * y)) by (nonlinear_arith)
            requires
                w == u * y,
        ;
        assert(u * u <= s * s) by (nonlinear_arith)
            requires
                0 <= u <= s,
        ;
        assert((u * u) * (y * y) <= (s * s) * t) by (nonlinear_arith)
            requires
                0 <= u * u <= s * s,
                0 <= y * y <= t,
        ;
    }
}

} // verus!
