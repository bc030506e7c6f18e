//! A normalized vector has a length of one, up to rounding.

use vstd::prelude::*;
use vstd::arithmetic::power2::*;
use crate::binary32::{Binary32, unit_scale, lemma_one_is_unit_scale};
use crate::accuracy::{
    abs, within_scale, lemma_abs_product, lemma_cancel_bound, lemma_scaled_error,
    lemma_mul_error, lemma_add_error_to_top, lemma_div_error, lemma_sqrt_error,
};
use crate::rounding::lemma_pow2_le;
use crate::vec3f::Vec3f32;

verus! {

/// The exact squared length of `v`, in units of 2^-298.
pub open spec fn sum_of_squares(v: Vec3f32) -> int {
    v.x.scaled() * v.x.scaled() + v.y.scaled() * v.y.scaled() + v.z.scaled() * v.z.scaled()
}

/// A number that is not negative and whose square is at most that of a
/// bound is at most the bound.
proof fn lemma_root_at_most(x: int, bound: int)
    requires
        0 <= x,
        0 <= bound,
        x * x <= bound * bound,
    ensures
        x <= bound,
{
    if x > bound {
        assert(x * x > bound * bound) by (nonlinear_arith)
            requires
                x > bound,
                bound >= 0,
        ;
    }
}

/// A number whose square is at least that of a bound is at least the bound.
proof fn lemma_root_at_least(x: int, bound: int)
    requires
        0 <= x,
        0 <= bound,
        x * x >= bound * bound,
    ensures
        x >= bound,
{
    if x < bound {
        assert(x * x < bound * bound) by (nonlinear_arith)
            requires
                0 <= x < bound,
        ;
    }
}

/// A square is not negative.
proof fn lemma_square_not_negative(x: int)
    ensures
        x * x >= 0,
        x * x == abs(x) * abs(x),
{
    assert(x * x >= 0) by (nonlinear_arith);
    assert(x * x == abs(x) * abs(x)) by (nonlinear_arith);
}

/// The squared length of a vector whose components are at most 2^63 in
/// size, and whose exact squared length is at least 2^-126, is finite and
/// lies within one part in 2^20 of the exact one; within one part in 2^21
/// where the exact squared length is at least 2^-122.
#[verifier::rlimit(40)]
pub proof fn lemma_squared_length_near(w: Vec3f32)
    requires
        within_scale(w, 212),
        sum_of_squares(w) >= pow2(172),
    ensures
        w.spec_squared_length().is_finite(),
        w.spec_squared_length().scaled() > 0,
        0x10_0000 * abs(w.spec_squared_length().scaled() * unit_scale() - sum_of_squares(w))
            <= sum_of_squares(w),
        sum_of_squares(w) >= pow2(176) ==> 0x20_0000 * abs(
            w.spec_squared_length().scaled() * unit_scale() - sum_of_squares(w),
        ) <= sum_of_squares(w),
{
    let unit = unit_scale();
    let pa = w.x.spec_mul(w.x);
    let pb = w.y.spec_mul(w.y);
    let pc = w.z.spec_mul(w.z);
    let s1 = pa.spec_add(pb);
    let q = s1.spec_add(pc);
    assert(q == w.spec_squared_length());
    let x1 = w.x.scaled() * w.x.scaled();
    let x2 = w.y.scaled() * w.y.scaled();
    let x3 = w.z.scaled() * w.z.scaled();
    let s = x1 + x2 + x3;
    let room = pow2(275) + pow2(253);
    lemma2_to64();
    lemma_pow2_pos(149);
    lemma_pow2_pos(253);
    lemma_pow2_adds(212, 212);
    lemma_pow2_adds(276, 149);
    lemma_pow2_adds(275, 149);
    lemma_pow2_adds(253, 149);
    lemma_pow2_adds(22, 149);
    lemma_pow2_adds(23, 149);
    lemma_pow2_adds(27, 149);
    lemma_pow2_adds(22, 402);
    lemma_pow2_adds(1, 424);
    lemma_pow2_adds(22, 253);
    lemma_pow2_adds(23, 253);
    lemma_pow2_adds(24, 253);
    lemma_pow2_le(171, 402);
    lemma_pow2_le(0, 253);
    lemma_abs_product(w.x.scaled(), w.x.scaled(), pow2(212) as int, pow2(212) as int);
    lemma_abs_product(w.y.scaled(), w.y.scaled(), pow2(212) as int, pow2(212) as int);
    lemma_abs_product(w.z.scaled(), w.z.scaled(), pow2(212) as int, pow2(212) as int);
    lemma_square_not_negative(w.x.scaled());
    lemma_square_not_negative(w.y.scaled());
    lemma_square_not_negative(w.z.scaled());
    lemma_mul_error(w.x, w.x);
    lemma_mul_error(w.y, w.y);
    lemma_mul_error(w.z, w.z);
    let g1 = pa.scaled() * unit;
    let g2 = pb.scaled() * unit;
    let g3 = pc.scaled() * unit;
    // each product is at most 2^275 + 2^253 units
    assert(room * unit == pow2(424) + pow2(402)) by (nonlinear_arith)
        requires
            room == pow2(275) + pow2(253),
            pow2(275) * unit == pow2(424),
            pow2(253) * unit == pow2(402),
    ;
    assert(abs(g1) <= room * unit && abs(g2) <= room * unit && abs(g3) <= room * unit);
    lemma_cancel_bound(pa.scaled(), room as int, unit);
    lemma_cancel_bound(pb.scaled(), room as int, unit);
    lemma_cancel_bound(pc.scaled(), room as int, unit);
    assert(pa.scaled() >= 0 && pb.scaled() >= 0 && pc.scaled() >= 0) by {
        crate::binary32::lemma_magnitude_order(0, pa.abs_bits());
        crate::binary32::lemma_magnitude_order(0, pb.abs_bits());
        crate::binary32::lemma_magnitude_order(0, pc.abs_bits());
    }
    lemma_add_error_to_top(pa, pb);
    let e1 = s1.scaled() - (pa.scaled() + pb.scaled());
    lemma_scaled_error(e1, pa.scaled() + pb.scaled(), unit);
    assert(abs(s1.scaled() + pc.scaled()) <= 0xff_ffff * pow2(253));
    lemma_add_error_to_top(s1, pc);
    let e2 = q.scaled() - (s1.scaled() + pc.scaled());
    lemma_scaled_error(e2, s1.scaled() + pc.scaled(), unit);
    let a = e1 * unit;
    let b = e2 * unit;
    assert((pa.scaled() + pb.scaled()) * unit == g1 + g2) by (nonlinear_arith)
        requires
            g1 == pa.scaled() * unit,
            g2 == pb.scaled() * unit,
    ;
    assert((s1.scaled() + pc.scaled()) * unit == g1 + g2 + a + g3) by (nonlinear_arith)
        requires
            g1 == pa.scaled() * unit,
            g2 == pb.scaled() * unit,
            g3 == pc.scaled() * unit,
            a == e1 * unit,
            e1 == s1.scaled() - (pa.scaled() + pb.scaled()),
    ;
    assert(q.scaled() * unit == g1 + g2 + g3 + a + b) by (nonlinear_arith)
        requires
            g1 == pa.scaled() * unit,
            g2 == pb.scaled() * unit,
            g3 == pc.scaled() * unit,
            a == e1 * unit,
            b == e2 * unit,
            e1 == s1.scaled() - (pa.scaled() + pb.scaled()),
            e2 == q.scaled() - (s1.scaled() + pc.scaled()),
    ;
    let total = q.scaled() * unit;
    assert(0x10_0000 * abs(total - s) <= s);
    if s >= pow2(176) {
        assert(0x20_0000 * abs(total - s) <= s);
    }
    assert(total > 0);
    assert(q.scaled() > 0) by (nonlinear_arith)
        requires
            q.scaled() * unit > 0,
            unit > 0,
    ;
}

/// The length of a vector whose largest component is about 2^(e - 149) in
/// size: its square lies within one part in 2^20 of the exact squared
/// length, and it is between 2^(e - 151) and 2^(e - 148).
proof fn lemma_length_near(v: Vec3f32, e: nat)
    requires
        87 <= e <= 212,
        within_scale(v, e),
        sum_of_squares(v) >= pow2((2 * e - 2) as nat),
    ensures
        v.spec_length().is_finite(),
        !v.spec_length().is_nan(),
        pow2((e - 2) as nat) <= v.spec_length().scaled() <= pow2(e + 1),
        0x40_0000 * abs(v.spec_length().scaled() * v.spec_length().scaled() - sum_of_squares(v))
            <= 6 * sum_of_squares(v),
        sum_of_squares(v) <= 3 * pow2(2 * e),
{
    let s = sum_of_squares(v);
    let q = v.spec_squared_length();
    let m = v.spec_length();
    let unit = unit_scale();
    lemma_pow2_le(e, 212);
    lemma_pow2_le(172, (2 * e - 2) as nat);
    lemma_squared_length_near(v);
    lemma_sqrt_error(q);
    let g = q.scaled() * unit;
    let m2 = m.scaled() * m.scaled();
    assert(0x40_0000 * abs(m2 - s) <= 6 * s);
    // how large the squared length can be
    lemma_pow2_adds(e, e);
    lemma_abs_product(v.x.scaled(), v.x.scaled(), pow2(e) as int, pow2(e) as int);
    lemma_abs_product(v.y.scaled(), v.y.scaled(), pow2(e) as int, pow2(e) as int);
    lemma_abs_product(v.z.scaled(), v.z.scaled(), pow2(e) as int, pow2(e) as int);
    assert(s <= 3 * pow2(2 * e));
    lemma_pow2_adds(e + 1, e + 1);
    lemma_pow2_adds(2, 2 * e);
    lemma_pow2_adds((e - 2) as nat, (e - 2) as nat);
    lemma_pow2_adds(2, (2 * e - 4) as nat);
    lemma2_to64();
    assert(m2 <= pow2(e + 1) * pow2(e + 1));
    assert(m2 >= pow2((e - 2) as nat) * pow2((e - 2) as nat));
    lemma_root_at_most(m.scaled(), pow2(e + 1) as int);
    lemma_root_at_least(m.scaled(), pow2((e - 2) as nat) as int);
}

/// The inverse of such a length: times the length it lies within one part
/// in 2^22 of one.
proof fn lemma_inverse_near(m: Binary32, e: nat)
    requires
        87 <= e <= 212,
        m.is_finite(),
        pow2((e - 2) as nat) <= m.scaled() <= pow2(e + 1),
    ensures
        (Binary32 { bits: 0x3f80_0000 }).spec_div(m).is_finite(),
        0 < (Binary32 { bits: 0x3f80_0000 }).spec_div(m).scaled() <= pow2((301 - e) as nat),
        0x40_0000 * abs(
            (Binary32 { bits: 0x3f80_0000 }).spec_div(m).scaled() * m.scaled() - unit_scale()
                * unit_scale(),
        ) <= unit_scale() * unit_scale(),
{
    let one = Binary32 { bits: 0x3f80_0000 };
    let inv = one.spec_div(m);
    let unit = unit_scale();
    let u2 = unit * unit;
    let r = inv.scaled() * m.scaled();
    lemma_one_is_unit_scale();
    lemma2_to64();
    lemma_pow2_pos(149);
    lemma_pow2_pos((e - 2) as nat);
    lemma_pow2_adds(149, 149);
    lemma_pow2_adds(276, (e - 2) as nat);
    lemma_pow2_le(298, (274 + e) as nat);
    lemma_pow2_adds(22, e + 1);
    lemma_pow2_le(e + 23, 298);
    lemma_pow2_adds(1, 298);
    lemma_pow2_adds((301 - e) as nat, (e - 2) as nat);
    assert(abs(m.scaled()) == m.scaled());
    assert(abs(one.scaled()) * unit == u2);
    assert(pow2(276) * abs(m.scaled()) >= pow2(276) * pow2((e - 2) as nat)) by (nonlinear_arith)
        requires
            abs(m.scaled()) >= pow2((e - 2) as nat),
            pow2(276) > 0,
    ;
    assert(!m.is_zero()) by {
        assert(crate::binary32::magnitude_of(0) == 0);
    }
    lemma_div_error(one, m);
    assert(one.scaled() * unit == u2);
    assert(0x40_0000 * abs(r - u2) <= u2);
    assert(r > 0);
    assert(inv.scaled() > 0) by (nonlinear_arith)
        requires
            inv.scaled() * m.scaled() > 0,
            m.scaled() > 0,
    ;
    assert(r <= pow2(299));
    assert(inv.scaled() <= pow2((301 - e) as nat)) by (nonlinear_arith)
        requires
            inv.scaled() * m.scaled() <= pow2((301 - e) as nat) * pow2((e - 2) as nat),
            m.scaled() >= pow2((e - 2) as nat),
            pow2((e - 2) as nat) > 0,
            inv.scaled() > 0,
    ;
}

/// One component of the normalized vector: times the length it lies within
/// one part in 2^21 of the component it was made of, or within the
/// length's worth of a unit.
#[verifier::rlimit(40)]
proof fn lemma_component_near(x: Binary32, inv: Binary32, m: Binary32, e: nat)
    requires
        87 <= e <= 212,
        x.is_finite(),
        abs(x.scaled()) <= pow2(e),
        m.is_finite(),
        inv.is_finite(),
        0 < m.scaled() <= pow2(e + 1),
        0 < inv.scaled() <= pow2((301 - e) as nat),
        0x40_0000 * abs(inv.scaled() * m.scaled() - unit_scale() * unit_scale()) <= unit_scale()
            * unit_scale(),
    ensures
        x.spec_mul(inv).is_finite(),
        0x20_0000 * abs(x.spec_mul(inv).scaled() * m.scaled() - x.scaled() * unit_scale()) <= abs(
            x.scaled() * unit_scale(),
        ) + 0x10_0000 * m.scaled(),
{
    let unit = unit_scale();
    let u2 = unit * unit;
    let n = x.spec_mul(inv);
    let r = inv.scaled() * m.scaled();
    let xi = x.scaled();
    lemma2_to64();
    lemma_pow2_pos(149);
    lemma_pow2_adds(e, (301 - e) as nat);
    lemma_pow2_le(301, 425);
    lemma_pow2_adds(276, 149);
    lemma_abs_product(xi, inv.scaled(), pow2(e) as int, pow2((301 - e) as nat) as int);
    lemma_mul_error(x, inv);
    let got = n.scaled() * unit;
    let exact = xi * inv.scaled();
    // times the length
    let big = n.scaled() * m.scaled();
    let h = abs(xi);
    let hr = h * r;
    let hu2 = h * u2;
    let um = unit * m.scaled();
    assert(abs(exact) == h * inv.scaled()) by (nonlinear_arith)
        requires
            exact == xi * inv.scaled(),
            h == abs(xi),
            inv.scaled() > 0,
    ;
    assert(abs(exact) * m.scaled() == hr) by (nonlinear_arith)
        requires
            abs(exact) == h * inv.scaled(),
            hr == h * r,
            r == inv.scaled() * m.scaled(),
    ;
    let mv = m.scaled();
    assert(got * mv == big * unit) by (nonlinear_arith)
        requires
            got == n.scaled() * unit,
            big == n.scaled() * mv,
    ;
    assert(exact * mv == xi * r) by (nonlinear_arith)
        requires
            exact == xi * inv.scaled(),
            r == inv.scaled() * mv,
    ;
    assert((got - exact) * mv == got * mv - exact * mv) by (nonlinear_arith);
    assert(abs((got - exact) * mv) == abs(got - exact) * mv) by (nonlinear_arith)
        requires
            mv > 0,
    ;
    assert(abs(got - exact) * m.scaled() == abs(big * unit - xi * r));
    assert(0x80_0000 * (abs(got - exact) * m.scaled()) <= (abs(exact) + 0x40_0000 * unit)
        * m.scaled()) by (nonlinear_arith)
        requires
            0x80_0000 * abs(got - exact) <= abs(exact) + 0x40_0000 * unit,
            m.scaled() > 0,
    ;
    assert((abs(exact) + 0x40_0000 * unit) * m.scaled() == hr + 0x40_0000 * um)
        by (nonlinear_arith)
        requires
            abs(exact) * m.scaled() == hr,
            um == unit * m.scaled(),
    ;
    assert(0x80_0000 * abs(big * unit - xi * r) <= hr + 0x40_0000 * um);
    // the inverse times the length is nearly one
    assert(abs(xi * r - xi * u2) == h * abs(r - u2)) by (nonlinear_arith)
        requires
            h == abs(xi),
    ;
    assert(0x40_0000 * (h * abs(r - u2)) <= hu2) by (nonlinear_arith)
        requires
            0x40_0000 * abs(r - u2) <= u2,
            h >= 0,
            hu2 == h * u2,
    ;
    assert(0x40_0000 * hr <= 0x40_0001 * hu2) by (nonlinear_arith)
        requires
            0x40_0000 * abs(r - u2) <= u2,
            h >= 0,
            hr == h * r,
            hu2 == h * u2,
    ;
    let target = xi * unit;
    assert(xi * u2 == target * unit) by (nonlinear_arith)
        requires
            u2 == unit * unit,
            target == xi * unit,
    ;
    assert(hu2 == abs(target) * unit) by (nonlinear_arith)
        requires
            hu2 == h * u2,
            u2 == unit * unit,
            h == abs(xi),
            target == xi * unit,
            unit > 0,
    ;
    assert(0x20_0000 * abs(big * unit - target * unit) <= abs(target) * unit + 0x10_0000 * um);
    assert(abs(big * unit - target * unit) == abs(big - target) * unit) by (nonlinear_arith)
        requires
            unit > 0,
    ;
    assert(0x20_0000 * abs(big - target) <= abs(target) + 0x10_0000 * m.scaled())
        by (nonlinear_arith)
        requires
            0x20_0000 * (abs(big - target) * unit) <= abs(target) * unit + 0x10_0000 * um,
            um == unit * m.scaled(),
            unit > 0,
    ;
}

/// The square of a product is the product of the squares.
proof fn lemma_square_of_product(a: int, m: int)
    ensures
        (a * m) * (a * m) == (a * a) * (m * m),
{
    assert((a * m) * (a * m) == (a * a) * (m * m)) by (nonlinear_arith);
}

/// A sum of three, times a factor.
proof fn lemma_sum_times(x: int, y: int, z: int, k: int)
    ensures
        (x + y + z) * k == x * k + y * k + z * k,
{
    assert((x + y + z) * k == x * k + y * k + z * k) by (nonlinear_arith);
}

/// Squares of numbers that are near each other are near each other.
proof fn lemma_square_near(n: int, a: int, c: int, e: nat)
    requires
        87 <= e <= 212,
        0 <= c <= pow2(e + 1),
        abs(a) <= pow2(e) * unit_scale(),
        0x20_0000 * abs(n - a) <= abs(a) + 0x10_0000 * c,
    ensures
        0x400_0000_0000 * abs(n * n - a * a) <= 0x40_0001 * (a * a) + pow2(2 * e + 194),
{
    let unit = unit_scale();
    let h = abs(a);
    let d = abs(n - a);
    let t = h + 0x10_0000 * c;
    let hh = h * h;
    let ch = c * h;
    let cc = c * c;
    lemma2_to64();
    lemma2_to64_rest();
    lemma_pow2_pos(149);
    assert(abs(n * n - a * a) <= d * (2 * h + d)) by (nonlinear_arith)
        requires
            d == abs(n - a),
            h == abs(a),
    ;
    assert(0x400_0000_0000 * (d * (2 * h + d)) <= t * (0x40_0000 * h + t)) by (nonlinear_arith)
        requires
            0x20_0000 * d <= t,
            0 <= d,
            0 <= h,
            0 <= t,
    ;
    assert(t * (0x40_0000 * h + t) == 0x40_0001 * hh + 0x10_0000 * 0x40_0002 * ch
        + 0x100_0000_0000 * cc) by (nonlinear_arith)
        requires
            t == h + 0x10_0000 * c,
            hh == h * h,
            ch == c * h,
            cc == c * c,
    ;
    assert(hh == a * a) by (nonlinear_arith)
        requires
            hh == h * h,
            h == abs(a),
    ;
    // what the length adds is small
    lemma_pow2_adds(e, 149);
    lemma_pow2_adds(e + 1, e + 149);
    lemma_pow2_adds(e + 1, e + 1);
    lemma_pow2_adds(43, 2 * e + 150);
    lemma_pow2_adds(40, 2 * e + 2);
    lemma_pow2_le(2 * e + 42, 2 * e + 193);
    lemma_pow2_adds(1, 2 * e + 193);
    assert(ch <= pow2(e + 1) * pow2(e + 149)) by (nonlinear_arith)
        requires
            ch == c * h,
            0 <= c <= pow2(e + 1),
            0 <= h <= pow2(e + 149),
    ;
    assert(cc <= pow2(e + 1) * pow2(e + 1)) by (nonlinear_arith)
        requires
            cc == c * c,
            0 <= c <= pow2(e + 1),
    ;
    assert(0x10_0000 * 0x40_0002 * ch <= pow2(43) * pow2(2 * e + 150)) by (nonlinear_arith)
        requires
            0 <= ch <= pow2(2 * e + 150),
            pow2(43) == 0x800_0000_0000,
    ;
    assert(0x100_0000_0000 * cc <= pow2(40) * pow2(2 * e + 2)) by (nonlinear_arith)
        requires
            0 <= cc <= pow2(2 * e + 2),
            pow2(40) == 0x100_0000_0000,
    ;
}

/// Whether `v` is finite and its exact squared length is within one part in
/// 2^18 of one.
pub open spec fn near_unit(v: Vec3f32) -> bool {
    v.is_finite() && 0x4_0000 * abs(sum_of_squares(v) - unit_scale() * unit_scale())
        <= unit_scale() * unit_scale()
}

/// Whether `w` times the length `m` is `x` to within one part in 2^21, or
/// within the length's worth of a unit.
pub open spec fn rescaled(w: Binary32, x: Binary32, m: Binary32) -> bool {
    w.is_finite() && 0x20_0000 * abs(w.scaled() * m.scaled() - x.scaled() * unit_scale()) <= abs(
        x.scaled() * unit_scale(),
    ) + 0x10_0000 * m.scaled()
}

/// A vector whose components, times the length of `v`, are nearly those of
/// `v` has an exact squared length within seven parts in 2^21 of one.
#[verifier::rlimit(40)]
proof fn lemma_rescaled_squares_near(v: Vec3f32, w: Vec3f32, e: nat)
    requires
        87 <= e <= 212,
        within_scale(v, e),
        sum_of_squares(v) >= pow2((2 * e - 2) as nat),
        rescaled(w.x, v.x, v.spec_length()),
        rescaled(w.y, v.y, v.spec_length()),
        rescaled(w.z, v.z, v.spec_length()),
    ensures
        0x20_0000 * abs(sum_of_squares(w) - unit_scale() * unit_scale()) <= 7 * (unit_scale()
            * unit_scale()),
        near_unit(w),
{
    let unit = unit_scale();
    let u2 = unit * unit;
    let s = sum_of_squares(v);
    let m = v.spec_length();
    let mv = m.scaled();
    let m2 = mv * mv;
    lemma_length_near(v, e);
    lemma_pow2_pos((e - 2) as nat);
    let (n1, n2, n3) = (w.x.scaled() * mv, w.y.scaled() * mv, w.z.scaled() * mv);
    let (a1, a2, a3) = (v.x.scaled() * unit, v.y.scaled() * unit, v.z.scaled() * unit);
    lemma_abs_product(v.x.scaled(), unit, pow2(e) as int, unit);
    lemma_abs_product(v.y.scaled(), unit, pow2(e) as int, unit);
    lemma_abs_product(v.z.scaled(), unit, pow2(e) as int, unit);
    lemma_pow2_pos(149);
    lemma_square_near(n1, a1, mv, e);
    lemma_square_near(n2, a2, mv, e);
    lemma_square_near(n3, a3, mv, e);
    let t = sum_of_squares(w);
    let tm = t * m2;
    let su = s * u2;
    lemma_square_of_product(w.x.scaled(), mv);
    lemma_square_of_product(w.y.scaled(), mv);
    lemma_square_of_product(w.z.scaled(), mv);
    lemma_sum_times(
        w.x.scaled() * w.x.scaled(),
        w.y.scaled() * w.y.scaled(),
        w.z.scaled() * w.z.scaled(),
        m2,
    );
    assert(n1 * n1 + n2 * n2 + n3 * n3 == tm);
    lemma_square_of_product(v.x.scaled(), unit);
    lemma_square_of_product(v.y.scaled(), unit);
    lemma_square_of_product(v.z.scaled(), unit);
    lemma_sum_times(
        v.x.scaled() * v.x.scaled(),
        v.y.scaled() * v.y.scaled(),
        v.z.scaled() * v.z.scaled(),
        u2,
    );
    assert(a1 * a1 + a2 * a2 + a3 * a3 == su);
    lemma_pow2_pos(298);
    lemma_pow2_pos((2 * e - 2) as nat);
    // the three remainders together are small beside the whole
    lemma2_to64();
    lemma2_to64_rest();
    lemma_pow2_adds(149, 149);
    lemma_pow2_adds((2 * e - 2) as nat, 298);
    lemma_pow2_adds(2, 2 * e + 194);
    lemma_pow2_adds(42, 2 * e + 196);
    lemma_pow2_le(2 * e + 238, 2 * e + 296);
    assert(su >= pow2((2 * e - 2) as nat) * pow2(298)) by (nonlinear_arith)
        requires
            su == s * u2,
            s >= pow2((2 * e - 2) as nat),
            u2 == pow2(298),
            u2 > 0,
    ;
    assert(0x400_0000_0000 * abs(tm - su) <= 0x40_0001 * su + 3 * pow2(2 * e + 194));
    assert(0x20_0000 * abs(tm - su) <= 3 * su);
    // cancel the squared length
    lemma_square_not_negative(w.x.scaled());
    lemma_square_not_negative(w.y.scaled());
    lemma_square_not_negative(w.z.scaled());
    assert(t >= 0);
    let ts = t * s;
    assert(0x40_0000 * tm <= 0x40_0006 * ts && 0x40_0000 * tm >= 0x3f_fffa * ts)
        by (nonlinear_arith)
        requires
            tm == t * m2,
            ts == t * s,
            t >= 0,
            0x40_0000 * abs(m2 - s) <= 6 * s,
    ;
    assert(0x20_0000 * abs(ts - su) <= 7 * su);
    assert(abs(ts - su) == abs(t - u2) * s) by (nonlinear_arith)
        requires
            ts == t * s,
            su == s * u2,
            s > 0,
    ;
    assert(0x20_0000 * abs(t - u2) <= 7 * u2) by (nonlinear_arith)
        requires
            0x20_0000 * (abs(t - u2) * s) <= 7 * su,
            su == s * u2,
            s > 0,
    ;
}

/// A vector of nearly unit length has a length within one part in 2^17 of
/// one.
proof fn lemma_length_of_near_unit(w: Vec3f32)
    requires
        w.is_finite(),
        0x20_0000 * abs(sum_of_squares(w) - unit_scale() * unit_scale()) <= 7 * (unit_scale()
            * unit_scale()),
    ensures
        w.spec_length().is_finite(),
        0x2_0000 * abs(w.spec_length().scaled() - unit_scale()) <= unit_scale(),
{
    let unit = unit_scale();
    let u2 = unit * unit;
    let t = sum_of_squares(w);
    lemma2_to64();
    lemma_pow2_pos(149);
    lemma_pow2_adds(149, 149);
    lemma_pow2_adds(1, 298);
    lemma_pow2_adds(150, 150);
    lemma_pow2_le(150, 212);
    lemma_pow2_le(172, 297);
    lemma_pow2_le(299, 300);
    lemma_pow2_adds(1, 297);
    lemma_pow2_le(176, 297);
    assert(t >= pow2(297));
    assert(t <= pow2(150) * pow2(150));
    lemma_square_not_negative(w.x.scaled());
    lemma_square_not_negative(w.y.scaled());
    lemma_square_not_negative(w.z.scaled());
    lemma_root_at_most(abs(w.x.scaled()), pow2(150) as int);
    lemma_root_at_most(abs(w.y.scaled()), pow2(150) as int);
    lemma_root_at_most(abs(w.z.scaled()), pow2(150) as int);
    lemma_squared_length_near(w);
    let q = w.spec_squared_length();
    lemma_sqrt_error(q);
    let l = w.spec_length();
    let lv = l.scaled();
    let l2 = lv * lv;
    assert(0x2_0000 * abs(l2 - u2) <= u2);
    assert(l2 - u2 == (lv - unit) * (lv + unit)) by (nonlinear_arith)
        requires
            l2 == lv * lv,
            u2 == unit * unit,
    ;
    assert(abs((lv - unit) * (lv + unit)) >= abs(lv - unit) * unit) by (nonlinear_arith)
        requires
            lv > 0,
            unit > 0,
    ;
    assert(0x2_0000 * abs(lv - unit) <= unit) by (nonlinear_arith)
        requires
            0x2_0000 * (abs(lv - unit) * unit) <= u2,
            u2 == unit * unit,
            unit > 0,
    ;
}

/// Normalizing gives unit length: the length of the normalized vector is
/// within one part in 100000 of one, for every vector whose components are
/// at most 2^k in size and whose squared length is at least 2^(2k - 2),
/// for some `k` from -62 to 63 (`e` is `k + 149`). Every finite vector whose
/// largest component is between 2^-63 and 2^63 in size is such a vector.
/// Beyond these sizes the squares fade or run over.
pub proof fn lemma_normalize_gives_unit_length(v: Vec3f32, e: nat)
    requires
        87 <= e <= 212,
        within_scale(v, e),
        sum_of_squares(v) >= pow2((2 * e - 2) as nat),
    ensures
        v.spec_normalize().spec_length().is_finite(),
        100000 * abs(v.spec_normalize().spec_length().scaled() - unit_scale()) <= unit_scale(),
        near_unit(v.spec_normalize()),
{
    let m = v.spec_length();
    let inv = (Binary32 { bits: 0x3f80_0000 }).spec_div(m);
    let w = v.spec_normalize();
    lemma_length_near(v, e);
    lemma_inverse_near(m, e);
    lemma_pow2_pos((e - 2) as nat);
    assert(crate::binary32::magnitude_of(0) == 0);
    assert((Binary32 { bits: 0 }).spec_lt(m));
    assert(w == v.spec_scale(inv));
    lemma_component_near(v.x, inv, m, e);
    lemma_component_near(v.y, inv, m, e);
    lemma_component_near(v.z, inv, m, e);
    lemma_rescaled_squares_near(v, w, e);
    lemma_length_of_near_unit(w);
}

/// Dividing by the length gives unit length: the length of `unit_vector`
/// is within one part in 100000 of one, for the same vectors.
pub proof fn lemma_unit_vector_gives_unit_length(v: Vec3f32, e: nat)
    requires
        87 <= e <= 212,
        within_scale(v, e),
        sum_of_squares(v) >= pow2((2 * e - 2) as nat),
    ensures
        v.spec_unit_vector().spec_length().is_finite(),
        100000 * abs(v.spec_unit_vector().spec_length().scaled() - unit_scale()) <= unit_scale(),
        near_unit(v.spec_unit_vector()),
{
    let m = v.spec_length();
    let w = v.spec_unit_vector();
    lemma_length_near(v, e);
    lemma_pow2_pos((e - 2) as nat);
    lemma_quotient_near(v.x, m, e);
    lemma_quotient_near(v.y, m, e);
    lemma_quotient_near(v.z, m, e);
    lemma_rescaled_squares_near(v, w, e);
    lemma_length_of_near_unit(w);
}

/// One component of `unit_vector`: times the length it lies within one part
/// in 2^23 of the component it was made of, or within the length's worth
/// of half a unit.
proof fn lemma_quotient_near(x: Binary32, m: Binary32, e: nat)
    requires
        87 <= e <= 212,
        x.is_finite(),
        abs(x.scaled()) <= pow2(e),
        m.is_finite(),
        pow2((e - 2) as nat) <= m.scaled() <= pow2(e + 1),
    ensures
        rescaled(x.spec_div(m), x, m),
{
    let unit = unit_scale();
    lemma_pow2_pos(149);
    lemma_pow2_pos((e - 2) as nat);
    lemma_pow2_adds(e, 149);
    lemma_pow2_adds(276, (e - 2) as nat);
    lemma_pow2_le(e + 149, (274 + e) as nat);
    assert(crate::binary32::magnitude_of(0) == 0);
    lemma_abs_product(x.scaled(), unit, pow2(e) as int, unit);
    assert(abs(x.scaled() * unit) == abs(x.scaled()) * unit) by (nonlinear_arith)
        requires
            unit > 0,
    ;
    assert(pow2(276) * abs(m.scaled()) >= pow2(276) * pow2((e - 2) as nat)) by (nonlinear_arith)
        requires
            abs(m.scaled()) >= pow2((e - 2) as nat),
            pow2(276) > 0,
    ;
    lemma_div_error(x, m);
}

} // verus!
