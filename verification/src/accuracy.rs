//! How far a rounded result can lie from the exact one.

use vstd::prelude::*;
use vstd::arithmetic::power2::*;
use crate::binary32::{
    Binary32, magnitude_of, binade_of, lemma_magnitude_split, lemma_magnitude_linear,
    lemma_magnitude_order, lemma_magnitude_increases, unit_scale, INFINITY_BITS,
};
use crate::rounding::{
    rounds_to, root_rounds_to, nearest, nearest_root, lemma_rounding_exists,
    lemma_nearest_root_is, lemma_pow2_le,
};
use crate::arith::rounded_sum;
use crate::vec3f::Vec3f32;

verus! {

/// The absolute value.
pub open spec fn abs(x: int) -> int {
    if x < 0 {
        -x
    } else {
        x
    }
}

/// Whether `x` is finite and at most 2^(e - 149) in size.
pub open spec fn sized(x: Binary32, e: nat) -> bool {
    x.is_finite() && abs(x.scaled()) <= pow2(e)
}

/// Whether the three components of `v` are finite and at most 2^(e - 149)
/// in size.
pub open spec fn within_scale(v: Vec3f32, e: nat) -> bool {
    sized(v.x, e) && sized(v.y, e) && sized(v.z, e)
}

/// The absolute value of a product is the product of the absolute values,
/// so bounds on the factors bound the product.
pub proof fn lemma_abs_product(x: int, y: int, bx: int, by: int)
    requires
        abs(x) <= bx,
        abs(y) <= by,
    ensures
        abs(x * y) <= bx * by,
{
    assert(abs(x * y) == abs(x) * abs(y)) by (nonlinear_arith);
    assert(abs(x) * abs(y) <= bx * by) by (nonlinear_arith)
        requires
            0 <= abs(x) <= bx,
            0 <= abs(y) <= by,
    ;
}

/// A bound on a multiple of the unit, given as a multiple of the unit, is a
/// bound on the number of units.
pub proof fn lemma_cancel_bound(x: int, bound: int, unit: int)
    requires
        unit > 0,
        abs(x * unit) <= bound * unit,
    ensures
        abs(x) <= bound,
{
    assert(abs(x * unit) == abs(x) * unit) by (nonlinear_arith)
        requires
            unit > 0,
    ;
    assert(abs(x) <= bound) by (nonlinear_arith)
        requires
            abs(x) * unit <= bound * unit,
            unit > 0,
    ;
}

/// A finite result of rounding lies within one part in 2^23 of the exact
/// value, or within half a unit of 2^-149 of it.
pub proof fn lemma_rounding_error(n: int, num: int, den: int)
    requires
        den > 0,
        num >= 0,
        rounds_to(n, num, den),
        n < INFINITY_BITS,
    ensures
        0x80_0000 * abs(magnitude_of(n) * den - num) <= num + 0x40_0000 * den,
{
    let s = binade_of(n);
    let y = n - s * 0x80_0000;
    let p = pow2(s) as int;
    let m = magnitude_of(n);
    lemma_magnitude_split(n);
    lemma_magnitude_linear(s, y + 1);
    lemma_pow2_pos(s);
    assert(magnitude_of(n + 1) == m + p) by (nonlinear_arith)
        requires
            magnitude_of(n + 1) == (y + 1) * p,
            m == y * p,
    ;
    let below = if n > 0 {
        magnitude_of(n - 1)
    } else {
        -1
    };
    if n > 0 {
        if s == 0 || y > 0x80_0000 {
            lemma_magnitude_linear(s, y - 1);
            assert(magnitude_of(n - 1) == m - p) by (nonlinear_arith)
                requires
                    magnitude_of(n - 1) == (y - 1) * p,
                    m == y * p,
            ;
        } else {
            let q = pow2((s - 1) as nat) as int;
            lemma_magnitude_linear((s - 1) as nat, 0xff_ffff);
            lemma_pow2_unfold(s);
            lemma_pow2_pos((s - 1) as nat);
            assert(n - 1 == (s - 1) * 0x80_0000 + 0xff_ffff);
            assert(magnitude_of(n - 1) == m - q) by (nonlinear_arith)
                requires
                    magnitude_of(n - 1) == 0xff_ffff * q,
                    m == 0x80_0000 * p,
                    p == 2 * q,
            ;
        }
    }
    assert(below >= m - p);
    // twice the value lies within one step of twice the result
    assert((2 * m - p) * den <= 2 * num) by {
        if n > 0 {
            assert((2 * m - p) * den <= (below + m) * den) by (nonlinear_arith)
                requires
                    below >= m - p,
                    den > 0,
            ;
        } else {
            assert(m == 0 && p == 1) by {
                lemma2_to64();
            }
            assert((2 * m - p) * den <= 0) by (nonlinear_arith)
                requires
                    2 * m - p == -1,
                    den > 0,
            ;
        }
    }
    assert(2 * num <= (2 * m + p) * den);
    let pd = p * den;
    let md = m * den;
    assert((2 * m - p) * den == 2 * md - pd) by (nonlinear_arith)
        requires
            pd == p * den,
            md == m * den,
    ;
    assert((2 * m + p) * den == 2 * md + pd) by (nonlinear_arith)
        requires
            pd == p * den,
            md == m * den,
    ;
    assert(2 * abs(md - num) <= pd);
    if s == 0 {
        lemma2_to64();
        assert(pd == den) by (nonlinear_arith)
            requires
                pd == p * den,
                p == 1,
        ;
    } else {
        // the value is at least 2^22 steps
        assert(md >= 0x80_0000 * pd) by (nonlinear_arith)
            requires
                md == m * den,
                pd == p * den,
                m == y * p,
                y >= 0x80_0000,
                den > 0,
                p > 0,
        ;
        assert(pd > 0) by (nonlinear_arith)
            requires
                pd == p * den,
                p > 0,
                den > 0,
        ;
    }
}

/// A value of at most 2^127 does not round to infinity.
pub proof fn lemma_rounding_finite(n: int, num: int, den: int)
    requires
        den > 0,
        rounds_to(n, num, den),
        num <= pow2(276) * den,
    ensures
        n < INFINITY_BITS,
{
    if n == INFINITY_BITS {
        lemma_magnitude_linear(253, 0x100_0000);
        lemma_magnitude_linear(253, 0xff_ffff);
        lemma2_to64();
        lemma_pow2_adds(24, 253);
        lemma_pow2_adds(23, 253);
        lemma_pow2_unfold(277);
        lemma_pow2_pos(253);
        let low = magnitude_of(INFINITY_BITS - 1);
        let top = magnitude_of(INFINITY_BITS as int);
        assert(low >= pow2(276)) by (nonlinear_arith)
            requires
                low == 0xff_ffff * pow2(253),
                pow2(276) == 0x80_0000 * pow2(253),
                pow2(253) > 0,
        ;
        assert((low + top) * den > 2 * (pow2(276) * den)) by (nonlinear_arith)
            requires
                low >= pow2(276),
                top == 2 * pow2(276),
                pow2(276) > 0,
                den > 0,
        ;
    }
}

/// The product of two finite numbers whose exact product is at most 2^127
/// is finite, and lies within one part in 2^23 of the exact product, or
/// within half a unit of it.
pub proof fn lemma_mul_error(a: Binary32, b: Binary32)
    requires
        a.is_finite(),
        b.is_finite(),
        abs(a.scaled() * b.scaled()) <= pow2(276) * unit_scale(),
    ensures
        a.spec_mul(b).is_finite(),
        a.spec_mul(b).sign() == (a.sign() != b.sign()),
        0x80_0000 * abs(a.spec_mul(b).scaled() * unit_scale() - a.scaled() * b.scaled()) <= abs(
            a.scaled() * b.scaled(),
        ) + 0x40_0000 * unit_scale(),
{
    let unit = unit_scale();
    let ma = a.magnitude();
    let mb = b.magnitude();
    let num = ma * mb;
    let n = nearest(num, unit);
    let r = a.spec_mul(b);
    lemma_pow2_pos(149);
    lemma_magnitude_order(0, a.abs_bits());
    lemma_magnitude_order(0, b.abs_bits());
    assert(num >= 0) by (nonlinear_arith)
        requires
            num == ma * mb,
            ma >= 0,
            mb >= 0,
    ;
    assert(abs(a.scaled() * b.scaled()) == num) by (nonlinear_arith)
        requires
            num == ma * mb,
            ma >= 0,
            mb >= 0,
            a.scaled() == ma || a.scaled() == -ma,
            b.scaled() == mb || b.scaled() == -mb,
    ;
    lemma_rounding_exists(num, unit);
    lemma_rounding_finite(n, num, unit);
    lemma_rounding_error(n, num, unit);
    assert(r == Binary32::compose(a.sign() != b.sign(), n));
    assert(r.abs_bits() == n);
    let v = r.scaled();
    let m = magnitude_of(n);
    lemma_magnitude_order(0, n);
    if a.sign() != b.sign() {
        assert(v == -m);
        assert(a.scaled() * b.scaled() == -num) by (nonlinear_arith)
            requires
                num == ma * mb,
                (a.scaled() == ma && b.scaled() == -mb) || (a.scaled() == -ma && b.scaled() == mb),
        ;
        assert(v * unit - a.scaled() * b.scaled() == -(m * unit - num)) by (nonlinear_arith)
            requires
                v == -m,
                a.scaled() * b.scaled() == -num,
        ;
    } else {
        assert(v == m);
        assert(a.scaled() * b.scaled() == num) by (nonlinear_arith)
            requires
                num == ma * mb,
                (a.scaled() == ma && b.scaled() == mb) || (a.scaled() == -ma && b.scaled() == -mb),
        ;
    }
}

/// The sum of two finite numbers whose exact sum is at most 2^127 is
/// finite, and lies within one part in 2^23 of the exact sum, or within
/// half a unit of it.
pub proof fn lemma_add_error(a: Binary32, b: Binary32)
    requires
        a.is_finite(),
        b.is_finite(),
        abs(a.scaled() + b.scaled()) <= pow2(276),
    ensures
        a.spec_add(b).is_finite(),
        0x80_0000 * abs(a.spec_add(b).scaled() - (a.scaled() + b.scaled())) <= abs(
            a.scaled() + b.scaled(),
        ) + 0x40_0000,
{
    let x = a.scaled() + b.scaled();
    let r = a.spec_add(b);
    assert(r == rounded_sum(x, a.sign() && b.sign()));
    assert(magnitude_of(0) == 0);
    if x != 0 {
        let n = nearest(abs(x), 1);
        lemma_rounding_exists(abs(x), 1);
        lemma_rounding_finite(n, abs(x), 1);
        lemma_rounding_error(n, abs(x), 1);
        assert(r.abs_bits() == n);
    }
}

/// A value of at most the largest finite number does not round to
/// infinity.
pub proof fn lemma_rounding_finite_to_top(n: int, num: int, den: int)
    requires
        den > 0,
        rounds_to(n, num, den),
        num <= (0xff_ffff * pow2(253)) * den,
    ensures
        n < INFINITY_BITS,
{
    if n == INFINITY_BITS {
        lemma_magnitude_linear(253, 0x100_0000);
        lemma_magnitude_linear(253, 0xff_ffff);
        lemma_pow2_pos(253);
        let low = magnitude_of(INFINITY_BITS - 1);
        let top = magnitude_of(INFINITY_BITS as int);
        assert((low + top) * den > 2 * (low * den)) by (nonlinear_arith)
            requires
                top > low,
                den > 0,
        ;
    }
}

/// The sum of two finite numbers whose exact sum is at most the largest
/// finite number in size is finite, and lies within one part in 2^23 of
/// the exact sum, or within half a unit of it.
pub proof fn lemma_add_error_to_top(a: Binary32, b: Binary32)
    requires
        a.is_finite(),
        b.is_finite(),
        abs(a.scaled() + b.scaled()) <= 0xff_ffff * pow2(253),
    ensures
        a.spec_add(b).is_finite(),
        0x80_0000 * abs(a.spec_add(b).scaled() - (a.scaled() + b.scaled())) <= abs(
            a.scaled() + b.scaled(),
        ) + 0x40_0000,
{
    let x = a.scaled() + b.scaled();
    let r = a.spec_add(b);
    assert(r == rounded_sum(x, a.sign() && b.sign()));
    assert(magnitude_of(0) == 0);
    if x != 0 {
        let n = nearest(abs(x), 1);
        lemma_rounding_exists(abs(x), 1);
        assert((0xff_ffff * pow2(253)) * 1 == 0xff_ffff * pow2(253));
        lemma_rounding_finite_to_top(n, abs(x), 1);
        lemma_rounding_error(n, abs(x), 1);
        assert(r.abs_bits() == n);
    }
}

/// The difference of two finite numbers whose exact difference is at most
/// 2^127 is finite, and lies within one part in 2^23 of the exact
/// difference, or within half a unit of it.
pub proof fn lemma_sub_error(a: Binary32, b: Binary32)
    requires
        a.is_finite(),
        b.is_finite(),
        abs(a.scaled() - b.scaled()) <= pow2(276),
    ensures
        a.spec_sub(b).is_finite(),
        0x80_0000 * abs(a.spec_sub(b).scaled() - (a.scaled() - b.scaled())) <= abs(
            a.scaled() - b.scaled(),
        ) + 0x40_0000,
{
    lemma_add_error(a, b.spec_neg());
}

/// The quotient of two finite numbers, the divisor not zero and the exact
/// quotient at most 2^127, is finite; times the divisor it lies within one
/// part in 2^23 of the dividend, or within half a unit's worth of the
/// divisor.
pub proof fn lemma_div_error(a: Binary32, b: Binary32)
    requires
        a.is_finite(),
        b.is_finite(),
        !b.is_zero(),
        abs(a.scaled()) * unit_scale() <= pow2(276) * abs(b.scaled()),
    ensures
        a.spec_div(b).is_finite(),
        0x80_0000 * abs(a.spec_div(b).scaled() * b.scaled() - a.scaled() * unit_scale()) <= abs(
            a.scaled(),
        ) * unit_scale() + 0x40_0000 * abs(b.scaled()),
{
    let unit = unit_scale();
    let ma = a.magnitude();
    let mb = b.magnitude();
    let r = a.spec_div(b);
    lemma_pow2_pos(149);
    lemma_magnitude_order(0, a.abs_bits());
    lemma_magnitude_order(0, b.abs_bits());
    assert(magnitude_of(0) == 0);
    assert(mb > 0);
    if a.is_zero() {
        assert(r.abs_bits() == 0);
        assert(ma * unit == 0) by (nonlinear_arith)
            requires
                ma == 0,
        ;
        assert(r.scaled() * b.scaled() == 0) by (nonlinear_arith)
            requires
                r.scaled() == 0,
        ;
        assert(a.scaled() * unit == 0) by (nonlinear_arith)
            requires
                a.scaled() == 0,
        ;
        assert(abs(a.scaled()) * unit == 0) by (nonlinear_arith)
            requires
                a.scaled() == 0,
        ;
        assert(0x40_0000 * abs(b.scaled()) >= 0);
    } else {
        let num = ma * unit;
        let n = nearest(num, mb);
        assert(num >= 0) by (nonlinear_arith)
            requires
                num == ma * unit,
                ma >= 0,
                unit > 0,
        ;
        lemma_rounding_exists(num, mb);
        lemma_rounding_finite(n, num, mb);
        lemma_rounding_error(n, num, mb);
        assert(r == Binary32::compose(a.sign() != b.sign(), n));
        assert(r.abs_bits() == n);
        let m = magnitude_of(n);
        let v = r.scaled();
        lemma_magnitude_order(0, n);
        assert(abs(a.scaled()) * unit == num);
        if a.sign() != b.sign() {
            assert(v * b.scaled() - a.scaled() * unit == m * mb - num || v * b.scaled() - a.scaled()
                * unit == -(m * mb - num)) by (nonlinear_arith)
                requires
                    v == -m,
                    num == ma * unit,
                    (a.scaled() == ma && b.scaled() == -mb) || (a.scaled() == -ma && b.scaled()
                        == mb),
            ;
        } else {
            assert(v * b.scaled() - a.scaled() * unit == m * mb - num || v * b.scaled() - a.scaled()
                * unit == -(m * mb - num)) by (nonlinear_arith)
                requires
                    v == m,
                    num == ma * unit,
                    (a.scaled() == ma && b.scaled() == mb) || (a.scaled() == -ma && b.scaled()
                        == -mb),
            ;
        }
    }
}

/// A rounded root at or above the pattern `k`, given that the root lies
/// above the midpoint below `k`.
proof fn lemma_root_rounding_from(k: int, square: int) -> (n: int)
    requires
        0 <= k <= INFINITY_BITS,
        k > 0 ==> ({
            let m = magnitude_of(k - 1) + magnitude_of(k);
            m * m < 4 * square || (m * m == 4 * square && k % 2 == 0)
        }),
    ensures
        root_rounds_to(n, square),
    decreases INFINITY_BITS - k,
{
    if k == INFINITY_BITS {
        k
    } else {
        let m = magnitude_of(k) + magnitude_of(k + 1);
        if 4 * square < m * m || (4 * square == m * m && k % 2 == 0) {
            k
        } else {
            lemma_root_rounding_from(k + 1, square)
        }
    }
}

/// Every square has a rounded root, so `nearest_root` names one.
pub proof fn lemma_root_rounding_exists(square: int)
    ensures
        root_rounds_to(nearest_root(square), square),
{
    let n = lemma_root_rounding_from(0, square);
    assert(root_rounds_to(n, square));
}

/// Rounding of roots keeps the order: of two squares, the larger does not
/// have the smaller rounded root.
pub proof fn lemma_root_rounding_monotone(n1: int, square1: int, n2: int, square2: int)
    requires
        root_rounds_to(n1, square1),
        root_rounds_to(n2, square2),
        square1 <= square2,
    ensures
        n1 <= n2,
{
    if n1 > n2 {
        let low = magnitude_of(n1 - 1) + magnitude_of(n1);
        let up = magnitude_of(n2) + magnitude_of(n2 + 1);
        lemma_magnitude_order(n2, n1 - 1);
        lemma_magnitude_order(n2 + 1, n1);
        lemma_magnitude_order(0, n2);
        assert(0 <= up <= low);
        assert(up * up <= low * low) by (nonlinear_arith)
            requires
                0 <= up <= low,
        ;
        if up < low {
            assert(up * up < low * low) by (nonlinear_arith)
                requires
                    0 <= up < low,
            ;
        }
    }
}

/// The square of a number that the format holds has that number as its
/// rounded root.
pub proof fn lemma_root_rounds_held(n: int)
    requires
        0 <= n <= INFINITY_BITS,
    ensures
        root_rounds_to(n, magnitude_of(n) * magnitude_of(n)),
        nearest_root(magnitude_of(n) * magnitude_of(n)) == n,
{
    let m = magnitude_of(n);
    lemma_magnitude_order(0, n);
    if n > 0 {
        lemma_magnitude_increases(n - 1, n);
        lemma_magnitude_order(0, n - 1);
        let low = magnitude_of(n - 1) + m;
        assert(low * low < 4 * (m * m)) by (nonlinear_arith)
            requires
                0 <= low < 2 * m,
        ;
    }
    lemma_magnitude_increases(n, n + 1);
    let up = m + magnitude_of(n + 1);
    assert(4 * (m * m) < up * up) by (nonlinear_arith)
        requires
            0 <= 2 * m < up,
    ;
    lemma_nearest_root_is(n, m * m);
}

/// The square root of a finite number above zero is finite and above zero,
/// and its square lies within one part in 2^22 of the number.
pub proof fn lemma_sqrt_error(a: Binary32)
    requires
        a.is_finite(),
        !a.is_zero(),
        !a.sign(),
    ensures
        a.spec_sqrt().is_finite(),
        !a.spec_sqrt().sign(),
        a.spec_sqrt().scaled() > 0,
        0x40_0000 * abs(a.spec_sqrt().scaled() * a.spec_sqrt().scaled() - a.scaled() * unit_scale())
            <= a.spec_sqrt().scaled() * a.spec_sqrt().scaled(),
{
    let unit = unit_scale();
    let x = a.magnitude() * unit;
    let n = nearest_root(x);
    let r = a.spec_sqrt();
    lemma_root_rounding_exists(x);
    lemma_pow2_pos(149);
    lemma2_to64();
    lemma_magnitude_order(0, a.abs_bits());
    lemma_magnitude_order(a.abs_bits(), INFINITY_BITS as int);
    assert(magnitude_of(0) == 0);
    assert(a.magnitude() >= 1);
    assert(x >= unit) by (nonlinear_arith)
        requires
            x == a.magnitude() * unit,
            a.magnitude() >= 1,
            unit > 0,
    ;
    lemma_pow2_le(48, 149);
    lemma_pow2_adds(24, 24);
    let s = binade_of(n);
    let y = n - s * 0x80_0000;
    let p = pow2(s) as int;
    let m = magnitude_of(n);
    lemma_magnitude_split(n);
    lemma_pow2_pos(s);
    // the root is finite
    if n == INFINITY_BITS {
        lemma_magnitude_linear(253, 0x100_0000);
        lemma_magnitude_order(0, INFINITY_BITS - 1);
        lemma_pow2_adds(24, 253);
        lemma_pow2_adds(277, 277);
        lemma_pow2_adds(277, 149);
        lemma_pow2_le(428, 554);
        lemma_pow2_adds(2, 426);
        let top = magnitude_of(INFINITY_BITS as int);
        let low = magnitude_of(INFINITY_BITS - 1);
        assert((low + top) * (low + top) >= top * top) by (nonlinear_arith)
            requires
                low >= 0,
                top >= 0,
        ;
        assert(x < pow2(426)) by (nonlinear_arith)
            requires
                x == a.magnitude() * unit,
                a.magnitude() < pow2(277),
                unit > 0,
                pow2(277) * unit == pow2(426),
        ;
        assert(false);
    }
    lemma_magnitude_linear(s, y + 1);
    assert(magnitude_of(n + 1) == m + p) by (nonlinear_arith)
        requires
            magnitude_of(n + 1) == (y + 1) * p,
            m == y * p,
    ;
    let up = 2 * m + p;
    assert(4 * x <= up * up);
    // the root is a normal number
    if s == 0 {
        assert(p == 1);
        assert(m == y * p);
        assert(m == y) by (nonlinear_arith)
            requires
                m == y * p,
                p == 1,
        ;
        assert(up * up < 0x10_0000_0000_0000) by (nonlinear_arith)
            requires
                0 <= up < 0x400_0000,
        ;
        lemma2_to64_rest();
        lemma_pow2_le(52, 149);
        assert(false);
    }
    assert(n > 0);
    assert(r == Binary32::compose(false, n));
    assert(r.abs_bits() == n);
    assert(r.scaled() == m);
    lemma_magnitude_order(0, n);
    let below = magnitude_of(n - 1);
    if y > 0x80_0000 {
        lemma_magnitude_linear(s, y - 1);
        assert(below == m - p) by (nonlinear_arith)
            requires
                below == (y - 1) * p,
                m == y * p,
        ;
    } else {
        let q = pow2((s - 1) as nat) as int;
        lemma_magnitude_linear((s - 1) as nat, 0xff_ffff);
        lemma_pow2_unfold(s);
        lemma_pow2_pos((s - 1) as nat);
        assert(n - 1 == (s - 1) * 0x80_0000 + 0xff_ffff);
        assert(below == m - q) by (nonlinear_arith)
            requires
                below == 0xff_ffff * q,
                m == 0x80_0000 * p,
                p == 2 * q,
        ;
    }
    assert(m >= 0x80_0000 * p) by (nonlinear_arith)
        requires
            m == y * p,
            y >= 0x80_0000,
            p > 0,
    ;
    let down = below + m;
    assert(down >= 2 * m - p);
    assert(down * down <= 4 * x);
    assert((2 * m - p) * (2 * m - p) <= down * down) by (nonlinear_arith)
        requires
            down >= 2 * m - p,
            2 * m - p >= 0,
    ;
    let mm = m * m;
    let mp = m * p;
    let pp = p * p;
    assert((2 * m - p) * (2 * m - p) == 4 * mm - 4 * mp + pp) by (nonlinear_arith)
        requires
            mm == m * m,
            mp == m * p,
            pp == p * p,
    ;
    assert(up * up == 4 * mm + 4 * mp + pp) by (nonlinear_arith)
        requires
            up == 2 * m + p,
            mm == m * m,
            mp == m * p,
            pp == p * p,
    ;
    assert(0x80_0000 * mp <= mm) by (nonlinear_arith)
        requires
            mm == m * m,
            mp == m * p,
            m >= 0x80_0000 * p,
            m >= 0,
    ;
    assert(0x80_0000 * pp <= mp) by (nonlinear_arith)
        requires
            pp == p * p,
            mp == m * p,
            m >= 0x80_0000 * p,
            p > 0,
    ;
    assert(pp >= 0) by (nonlinear_arith)
        requires
            pp == p * p,
    ;
    assert(a.scaled() == a.magnitude());
}

/// An error bound in units holds likewise of multiples of the unit.
pub proof fn lemma_scaled_error(err: int, size: int, unit: int)
    requires
        unit > 0,
        0x80_0000 * abs(err) <= abs(size) + 0x40_0000,
    ensures
        0x80_0000 * abs(err * unit) <= abs(size * unit) + 0x40_0000 * unit,
{
    assert(abs(err * unit) == abs(err) * unit) by (nonlinear_arith)
        requires
            unit > 0,
    ;
    assert(abs(size * unit) == abs(size) * unit) by (nonlinear_arith)
        requires
            unit > 0,
    ;
    assert(0x80_0000 * (abs(err) * unit) <= (abs(size) + 0x40_0000) * unit) by (nonlinear_arith)
        requires
            0x80_0000 * abs(err) <= abs(size) + 0x40_0000,
            unit > 0,
    ;
    assert((abs(size) + 0x40_0000) * unit == abs(size) * unit + 0x40_0000 * unit)
        by (nonlinear_arith);
}

/// Whether `e` is the exponent of a size from 2^-40 to 2^40, counted in
/// units of 2^-149.
pub open spec fn moderate(e: nat) -> bool {
    109 <= e <= 189
}

/// The small multiples of a power of two that are powers of two.
pub proof fn lemma_pow2_multiples(e: nat)
    ensures
        2 * pow2(e) == pow2(e + 1),
        4 * pow2(e) == pow2(e + 2),
        8 * pow2(e) == pow2(e + 3),
        16 * pow2(e) == pow2(e + 4),
        32 * pow2(e) == pow2(e + 5),
        pow2(e) > 0,
{
    lemma2_to64();
    lemma_pow2_adds(1, e);
    lemma_pow2_adds(2, e);
    lemma_pow2_adds(3, e);
    lemma_pow2_adds(4, e);
    lemma_pow2_adds(5, e);
    lemma_pow2_pos(e);
}

/// The product of a number of at most 2^(ea - 149) in size and one of at
/// most 2^(eb - 149) is within one part in 2^22 of 2^(ea + eb - 298) of the
/// exact product.
pub proof fn lemma_sized_product(a: Binary32, b: Binary32, ea: nat, eb: nat)
    requires
        moderate(ea),
        moderate(eb),
        sized(a, ea),
        sized(b, eb),
    ensures
        a.spec_mul(b).is_finite(),
        abs(a.spec_mul(b).scaled() * unit_scale() - a.scaled() * b.scaled()) <= pow2(
            (ea + eb - 22) as nat,
        ),
        abs(a.spec_mul(b).scaled()) <= pow2((ea + eb - 149) as nat) + pow2((ea + eb - 171) as nat),
{
    let unit = unit_scale();
    let k = ea + eb;
    let exact = a.scaled() * b.scaled();
    let got = a.spec_mul(b).scaled() * unit;
    lemma_pow2_pos(149);
    lemma_pow2_adds(ea, eb);
    lemma_pow2_adds(276, 149);
    lemma_pow2_adds(22, 149);
    lemma_pow2_le(k, 425);
    lemma_pow2_le(171, k);
    lemma_pow2_multiples(k);
    lemma_pow2_adds(23, (k - 22) as nat);
    lemma_pow2_adds((k - 149) as nat, 149);
    lemma_pow2_adds((k - 171) as nat, 149);
    lemma2_to64();
    lemma_abs_product(a.scaled(), b.scaled(), pow2(ea) as int, pow2(eb) as int);
    lemma_mul_error(a, b);
    assert(abs(got - exact) <= pow2((k - 22) as nat));
    let bound = pow2((k - 149) as nat) + pow2((k - 171) as nat);
    assert(bound * unit == pow2(k) + pow2((k - 22) as nat)) by (nonlinear_arith)
        requires
            bound == pow2((k - 149) as nat) + pow2((k - 171) as nat),
            pow2((k - 149) as nat) * unit == pow2(k),
            pow2((k - 171) as nat) * unit == pow2((k - 22) as nat),
    ;
    lemma_cancel_bound(a.spec_mul(b).scaled(), bound as int, unit);
}

/// The exact dot product of `a` and `b`, in units of 2^-298.
pub open spec fn exact_dot(a: Vec3f32, b: Vec3f32) -> int {
    a.x.scaled() * b.x.scaled() + a.y.scaled() * b.y.scaled() + a.z.scaled() * b.z.scaled()
}

/// The dot product of a vector of at most 2^(ec - 149) in size and one of at
/// most 2^(ev - 149) is within seven parts in 2^22 of 2^(ec + ev - 298) of
/// the exact one.
#[verifier::rlimit(40)]
pub proof fn lemma_dot_error(c: Vec3f32, v: Vec3f32, ec: nat, ev: nat)
    requires
        moderate(ec),
        moderate(ev),
        within_scale(c, ec),
        within_scale(v, ev),
    ensures
        c.spec_dot(v).is_finite(),
        abs(c.spec_dot(v).scaled() * unit_scale() - exact_dot(c, v)) <= 7 * pow2(
            (ec + ev - 22) as nat,
        ),
{
    let unit = unit_scale();
    let k = ec + ev;
    let q1 = c.x.spec_mul(v.x);
    let q2 = c.y.spec_mul(v.y);
    let q3 = c.z.spec_mul(v.z);
    let s = q1.spec_add(q2);
    let d = s.spec_add(q3);
    let top = pow2((k - 149) as nat) as int;
    let low = pow2((k - 171) as nat) as int;
    lemma_sized_product(c.x, v.x, ec, ev);
    lemma_sized_product(c.y, v.y, ec, ev);
    lemma_sized_product(c.z, v.z, ec, ev);
    lemma2_to64();
    lemma_pow2_pos(149);
    lemma_pow2_multiples((k - 149) as nat);
    lemma_pow2_multiples((k - 171) as nat);
    lemma_pow2_multiples((k - 22) as nat);
    lemma_pow2_le((k - 171) as nat, (k - 149) as nat);
    lemma_pow2_le((k - 146) as nat, 276);
    lemma_pow2_le(22, (k - 171) as nat);
    lemma_pow2_adds(22, 149);
    lemma_pow2_adds((k - 149) as nat, 149);
    lemma_pow2_adds((k - 171) as nat, 149);
    lemma_pow2_adds(23, (k - 22) as nat);
    lemma_pow2_le(171, (k - 22) as nat);
    lemma_pow2_adds(22, (k - 171) as nat);
    assert(top == 0x40_0000 * low);
    lemma_add_error(q1, q2);
    let es = s.scaled() - (q1.scaled() + q2.scaled());
    lemma_scaled_error(es, q1.scaled() + q2.scaled(), unit);
    assert(abs(s.scaled()) <= 3 * top);
    lemma_add_error(s, q3);
    let ed = d.scaled() - (s.scaled() + q3.scaled());
    lemma_scaled_error(ed, s.scaled() + q3.scaled(), unit);
    let a = es * unit;
    let b = ed * unit;
    let bound = top + low;
    assert(bound * unit == pow2(k) + pow2((k - 22) as nat)) by (nonlinear_arith)
        requires
            bound == top + low,
            top * unit == pow2(k),
            low * unit == pow2((k - 22) as nat),
    ;
    lemma_pow2_adds(22, (k - 22) as nat);
    let part = pow2((k - 22) as nat) as int;
    let (g1, g2, g3) = (q1.scaled() * unit, q2.scaled() * unit, q3.scaled() * unit);
    lemma_abs_product(q1.scaled(), unit, bound, unit);
    lemma_abs_product(q2.scaled(), unit, bound, unit);
    lemma_abs_product(q3.scaled(), unit, bound, unit);
    assert((q1.scaled() + q2.scaled()) * unit == g1 + g2) by (nonlinear_arith)
        requires
            g1 == q1.scaled() * unit,
            g2 == q2.scaled() * unit,
    ;
    assert(abs(a) <= 2 * part);
    assert((s.scaled() + q3.scaled()) * unit == g1 + g2 + g3 + a) by (nonlinear_arith)
        requires
            g1 == q1.scaled() * unit,
            g2 == q2.scaled() * unit,
            g3 == q3.scaled() * unit,
            a == es * unit,
            es == s.scaled() - (q1.scaled() + q2.scaled()),
    ;
    assert(abs(b) <= 2 * part);
    let t1 = q1.scaled() * unit - c.x.scaled() * v.x.scaled();
    let t2 = q2.scaled() * unit - c.y.scaled() * v.y.scaled();
    let t3 = q3.scaled() * unit - c.z.scaled() * v.z.scaled();
    assert(d.scaled() * unit - exact_dot(c, v) == t1 + t2 + t3 + a + b) by (nonlinear_arith)
        requires
            a == es * unit,
            b == ed * unit,
            es == s.scaled() - (q1.scaled() + q2.scaled()),
            ed == d.scaled() - (s.scaled() + q3.scaled()),
            t1 == q1.scaled() * unit - c.x.scaled() * v.x.scaled(),
            t2 == q2.scaled() * unit - c.y.scaled() * v.y.scaled(),
            t3 == q3.scaled() * unit - c.z.scaled() * v.z.scaled(),
            exact_dot(c, v) == c.x.scaled() * v.x.scaled() + c.y.scaled() * v.y.scaled()
                + c.z.scaled() * v.z.scaled(),
    ;
}

} // verus!
