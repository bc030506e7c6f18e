//! Multiplication, addition and subtraction of binary32 numbers, each the
//! exact result rounded to nearest with ties to even.

use vstd::prelude::*;
use vstd::arithmetic::power2::*;
use crate::binary32::{
    Binary32, magnitude_of, lemma_magnitude_linear, lemma_magnitude_order, unit_scale,
    INFINITY_BITS, SIGN_BIT, NAN_BITS, HIDDEN_BIT,
};
use crate::rounding::{
    nearest, lemma_nearest_is, lemma_packs_rounds, lemma_rounds_held, round_pack, pow2_u64,
    up_scale, down_scale, lemma_pow2_le,
};

verus! {

/// The significand and exponent of a finite magnitude pattern: the pattern is
/// worth `sig * 2^exp` units. A normal number has its leading one at bit 23.
pub(crate) fn unpack(m: u32) -> (r: (u64, u32))
    requires
        m < INFINITY_BITS,
    ensures
        magnitude_of(m as int) == r.0 * pow2(r.1 as nat),
        r.0 < 0x100_0000,
        r.1 <= 253,
        (r.0 == 0) == (m == 0),
        r.1 > 0 ==> r.0 >= 0x80_0000,
        r.1 == if m < HIDDEN_BIT {
            0
        } else {
            m / HIDDEN_BIT - 1
        },
{
    let e = m / HIDDEN_BIT;
    let f = m % HIDDEN_BIT;
    proof {
        lemma2_to64();
    }
    if e == 0 {
        assert(f * pow2(0) == f);
        (f as u64, 0)
    } else {
        proof {
            lemma_magnitude_linear((e - 1) as nat, 0x80_0000 + f);
            assert(m == (e - 1) * 0x80_0000 + (0x80_0000 + f));
        }
        ((HIDDEN_BIT + f) as u64, e - 1)
    }
}

/// The number with the given sign and magnitude pattern.
pub(crate) fn pack(negative: bool, m: u32) -> (r: Binary32)
    requires
        m < SIGN_BIT,
    ensures
        r == Binary32::compose(negative, m as int),
{
    if negative {
        Binary32 { bits: m + SIGN_BIT }
    } else {
        Binary32 { bits: m }
    }
}

/// 2^(e - d) as a fraction: its numerator times 2^d is its denominator times 2^e.
pub proof fn lemma_scale_split(e: nat, d: nat)
    ensures
        up_scale(e - d) * pow2(d) == pow2(e) * down_scale(e - d),
        up_scale(e - d) > 0,
        down_scale(e - d) > 0,
{
    if e >= d {
        lemma_pow2_adds((e - d) as nat, d);
        lemma_pow2_pos((e - d) as nat);
    } else {
        lemma_pow2_adds(e, (d - e) as nat);
        lemma_pow2_pos((d - e) as nat);
    }
}

/// The exact sum `x` of two finite numbers, counted in units of 2^-149, as
/// the format rounds it: to nearest, ties to even, under its own sign. A sum
/// of zero is the positive zero unless both terms were negative.
pub open spec fn rounded_sum(x: int, both_negative: bool) -> Binary32 {
    if x == 0 {
        Binary32::compose(both_negative, 0)
    } else if x > 0 {
        Binary32::compose(false, nearest(x, 1))
    } else {
        Binary32::compose(true, nearest(-x, 1))
    }
}

/// `worth` units under the given sign.
pub open spec fn signed(negative: bool, worth: int) -> int {
    if negative {
        -worth
    } else {
        worth
    }
}

/// The rounded sum of two finite numbers that are not zero, given by sign,
/// significand and exponent, the one with the larger exponent first.
fn add_ordered(n_hi: bool, s_hi: u64, e_hi: u32, n_lo: bool, s_lo: u64, e_lo: u32) -> (r:
    Binary32)
    requires
        0 < s_hi < 0x100_0000,
        0 < s_lo < 0x100_0000,
        e_lo <= e_hi <= 253,
        e_hi > 0 ==> s_hi >= 0x80_0000,
    ensures
        r == rounded_sum(
            signed(n_hi, s_hi * pow2(e_hi as nat)) + signed(n_lo, s_lo * pow2(e_lo as nat)),
            n_hi && n_lo,
        ),
{
    let d = e_hi - e_lo;
    let ghost p_lo = pow2(e_lo as nat) as int;
    let ghost p_hi = pow2(e_hi as nat) as int;
    let ghost m_hi = s_hi * p_hi;
    let ghost m_lo = s_lo * p_lo;
    let ghost x = signed(n_hi, m_hi) + signed(n_lo, m_lo);
    proof {
        lemma2_to64();
        lemma2_to64_rest();
        lemma_pow2_pos(e_lo as nat);
        lemma_pow2_adds(d as nat, e_lo as nat);
        assert(0 < m_lo) by (nonlinear_arith)
            requires
                m_lo == s_lo * p_lo,
                0 < s_lo,
                0 < p_lo,
        ;
    }
    if d <= 38 {
        let lift = pow2_u64(d);
        proof {
            lemma_pow2_le(d as nat, 38);
            assert(s_hi * lift < 0x4000_0000_0000_0000) by (nonlinear_arith)
                requires
                    s_hi < 0x100_0000,
                    lift <= 0x40_0000_0000,
            ;
        }
        let big = s_hi * lift;
        proof {
            assert(m_hi == big * p_lo) by (nonlinear_arith)
                requires
                    m_hi == s_hi * p_hi,
                    p_hi == lift * p_lo,
                    big == s_hi * lift,
            ;
            assert((big + s_lo) * p_lo == big * p_lo + s_lo * p_lo) by (nonlinear_arith);
            assert((big - s_lo) * p_lo == big * p_lo - s_lo * p_lo) by (nonlinear_arith);
            assert((s_lo - big) * p_lo == s_lo * p_lo - big * p_lo) by (nonlinear_arith);
        }
        if n_hi == n_lo {
            let sig = big + s_lo;
            let n = round_pack(sig, e_lo as i32, false);
            proof {
                assert(sig * p_lo > 0) by (nonlinear_arith)
                    requires
                        sig > 0,
                        p_lo > 0,
                ;
                lemma_packs_rounds(n as int, sig as int, e_lo as int, false, sig * p_lo, 1);
                lemma_nearest_is(n as int, sig * p_lo, 1);
            }
            pack(n_hi, n)
        } else if big > s_lo {
            let sig = big - s_lo;
            let n = round_pack(sig, e_lo as i32, false);
            proof {
                assert(sig * p_lo > 0) by (nonlinear_arith)
                    requires
                        sig > 0,
                        p_lo > 0,
                ;
                lemma_packs_rounds(n as int, sig as int, e_lo as int, false, sig * p_lo, 1);
                lemma_nearest_is(n as int, sig * p_lo, 1);
            }
            pack(n_hi, n)
        } else if big < s_lo {
            let sig = s_lo - big;
            let n = round_pack(sig, e_lo as i32, false);
            proof {
                assert(sig * p_lo > 0) by (nonlinear_arith)
                    requires
                        sig > 0,
                        p_lo > 0,
                ;
                lemma_packs_rounds(n as int, sig as int, e_lo as int, false, sig * p_lo, 1);
                lemma_nearest_is(n as int, sig * p_lo, 1);
            }
            pack(n_lo, n)
        } else {
            pack(false, 0)
        }
    } else {
        // The smaller term is less than an eighth of the larger one's last
        // place: all it does is push the sum off the larger term.
        let sig = if n_hi == n_lo {
            s_hi * 8
        } else {
            s_hi * 8 - 1
        };
        let n = round_pack(sig, e_hi as i32 - 3, true);
        proof {
            let unit = pow2((e_hi - 3) as nat) as int;
            lemma_pow2_adds(3, (e_hi - 3) as nat);
            lemma_pow2_adds(24, e_lo as nat);
            lemma_pow2_le((24 + e_lo) as nat, (e_hi - 3) as nat);
            assert(m_hi == (s_hi * 8) * unit) by (nonlinear_arith)
                requires
                    m_hi == s_hi * p_hi,
                    p_hi == 8 * unit,
            ;
            assert(m_lo < unit) by (nonlinear_arith)
                requires
                    m_lo == s_lo * p_lo,
                    s_lo < 0x100_0000,
                    0x100_0000 * p_lo <= unit,
                    p_lo > 0,
            ;
            assert((sig + 1) * unit == sig * unit + unit) by (nonlinear_arith);
            let worth = if n_hi == n_lo {
                m_hi + m_lo
            } else {
                m_hi - m_lo
            };
            assert((s_hi * 8 - 1) * unit == (s_hi * 8) * unit - unit) by (nonlinear_arith);
            assert(sig * unit > 0) by (nonlinear_arith)
                requires
                    sig > 0,
                    unit > 0,
            ;
            lemma_packs_rounds(n as int, sig as int, e_hi - 3, true, worth, 1);
            lemma_nearest_is(n as int, worth, 1);
        }
        pack(n_hi, n)
    }
}

impl Binary32 {
    /// The product as the format defines it: a NaN if either factor is one
    /// or if an infinity meets a zero; else the exact product rounded to
    /// nearest, ties to even, under the sign the two signs give.
    pub open spec fn spec_mul(self, other: Binary32) -> Binary32 {
        let negative = self.sign() != other.sign();
        if self.is_nan() || other.is_nan() {
            Binary32::nan()
        } else if (self.is_infinite() && other.is_zero()) || (self.is_zero()
            && other.is_infinite()) {
            Binary32::nan()
        } else if self.is_infinite() || other.is_infinite() {
            Binary32::compose(negative, INFINITY_BITS as int)
        } else {
            Binary32::compose(
                negative,
                nearest(self.magnitude() * other.magnitude(), unit_scale()),
            )
        }
    }

    /// The sum as the format defines it: a NaN if either term is one or if
    /// the terms are infinities of opposite sign; an infinite term if there
    /// is one; else the exact sum, rounded.
    pub open spec fn spec_add(self, other: Binary32) -> Binary32 {
        if self.is_nan() || other.is_nan() {
            Binary32::nan()
        } else if self.is_infinite() && other.is_infinite() && self.sign() != other.sign() {
            Binary32::nan()
        } else if self.is_infinite() {
            self
        } else if other.is_infinite() {
            other
        } else {
            rounded_sum(self.scaled() + other.scaled(), self.sign() && other.sign())
        }
    }

    /// The difference as the format defines it: the sum with the negation.
    pub open spec fn spec_sub(self, other: Binary32) -> Binary32 {
        self.spec_add(other.spec_neg())
    }

    /// The whole number `v` rounded to nearest, ties to even.
    pub open spec fn spec_from_u32(v: u32) -> Binary32 {
        Binary32::compose(false, nearest(v * unit_scale(), 1))
    }

    /// `self * other`.
    pub fn mul(self, other: Binary32) -> (r: Binary32)
        ensures
            r == self.spec_mul(other),
    {
        let ma = self.magnitude_bits();
        let mb = other.magnitude_bits();
        let negative = self.is_sign_negative() != other.is_sign_negative();
        if ma > INFINITY_BITS || mb > INFINITY_BITS {
            return Binary32 { bits: NAN_BITS };
        }
        if ma == INFINITY_BITS || mb == INFINITY_BITS {
            if ma == 0 || mb == 0 {
                return Binary32 { bits: NAN_BITS };
            }
            return pack(negative, INFINITY_BITS);
        }
        let (sa, ea) = unpack(ma);
        let (sb, eb) = unpack(mb);
        assert(sa * sb < 0x1_0000_0000_0000) by (nonlinear_arith)
            requires
                sa < 0x100_0000,
                sb < 0x100_0000,
        ;
        let sig = sa * sb;
        let exp = ea as i32 + eb as i32 - 149;
        let n = round_pack(sig, exp, false);
        proof {
            let e = (ea + eb) as nat;
            let pa = pow2(ea as nat) as int;
            let pb = pow2(eb as nat) as int;
            let num = self.magnitude() * other.magnitude();
            let den = unit_scale();
            let u = up_scale(exp as int);
            let w = down_scale(exp as int);
            lemma_pow2_adds(ea as nat, eb as nat);
            lemma_pow2_pos(149);
            lemma_scale_split(e, 149);
            assert(num == sig * pow2(e)) by (nonlinear_arith)
                requires
                    num == (sa * pa) * (sb * pb),
                    sig == sa * sb,
                    pow2(e) == pa * pb,
            ;
            assert(sig * u * den == num * w) by (nonlinear_arith)
                requires
                    num == sig * pow2(e),
                    u * den == pow2(e) * w,
            ;
            lemma_packs_rounds(n as int, sig as int, exp as int, false, num, den);
            lemma_nearest_is(n as int, num, den);
        }
        pack(negative, n)
    }

    /// `self + other`.
    pub fn add(self, other: Binary32) -> (r: Binary32)
        ensures
            r == self.spec_add(other),
    {
        let ma = self.magnitude_bits();
        let mb = other.magnitude_bits();
        let na = self.is_sign_negative();
        let nb = other.is_sign_negative();
        if ma > INFINITY_BITS || mb > INFINITY_BITS {
            return Binary32 { bits: NAN_BITS };
        }
        if ma == INFINITY_BITS {
            if mb == INFINITY_BITS && na != nb {
                return Binary32 { bits: NAN_BITS };
            }
            return self;
        }
        if mb == INFINITY_BITS {
            return other;
        }
        proof {
            lemma_magnitude_order(0, ma as int);
            lemma_magnitude_order(0, mb as int);
            lemma_rounds_held(ma as int, 1);
            lemma_rounds_held(mb as int, 1);
        }
        if ma == 0 && mb == 0 {
            return pack(na && nb, 0);
        }
        if mb == 0 {
            return self;
        }
        if ma == 0 {
            return other;
        }
        let (sa, ea) = unpack(ma);
        let (sb, eb) = unpack(mb);
        if ea >= eb {
            add_ordered(na, sa, ea, nb, sb, eb)
        } else {
            add_ordered(nb, sb, eb, na, sa, ea)
        }
    }

    /// `self - other`.
    pub fn sub(self, other: Binary32) -> (r: Binary32)
        ensures
            r == self.spec_sub(other),
    {
        self.add(other.neg())
    }

    /// The whole number `v` as a binary32 number, rounded if it has more than
    /// 24 significant bits.
    pub fn from_u32(v: u32) -> (r: Binary32)
        ensures
            r == Binary32::spec_from_u32(v),
    {
        let n = round_pack(v as u64, 149, false);
        proof {
            lemma_packs_rounds(n as int, v as int, 149, false, v * unit_scale(), 1);
            lemma_nearest_is(n as int, v * unit_scale(), 1);
        }
        pack(false, n)
    }
}

/// Whether two numbers are the same by value: equal as the format compares
/// them, or both a NaN.
pub open spec fn same_value(x: Binary32, y: Binary32) -> bool {
    (x.is_nan() && y.is_nan()) || x.spec_equals(y)
}

/// The product of a finite number and a zero is a zero.
pub proof fn lemma_mul_by_zero(a: Binary32, z: Binary32)
    requires
        a.is_finite(),
        z.is_zero(),
    ensures
        a.spec_mul(z).is_zero(),
        z.spec_mul(a).is_zero(),
        a.spec_mul(z) == Binary32::compose(a.sign() != z.sign(), 0),
        z.spec_mul(a) == Binary32::compose(a.sign() != z.sign(), 0),
{
    lemma_pow2_pos(149);
    lemma_rounds_held(0, unit_scale());
    assert(magnitude_of(0) == 0);
    assert(a.magnitude() * z.magnitude() == 0) by (nonlinear_arith)
        requires
            z.magnitude() == 0,
    ;
    assert(z.magnitude() * a.magnitude() == 0) by (nonlinear_arith)
        requires
            z.magnitude() == 0,
    ;
    assert(magnitude_of(0) * unit_scale() == 0) by (nonlinear_arith)
        requires
            magnitude_of(0) == 0,
    ;
}

/// Adding a zero, or taking one away, leaves the value of a number.
pub proof fn lemma_add_zero(a: Binary32, z: Binary32)
    requires
        z.is_zero(),
    ensures
        same_value(a.spec_add(z), a),
        same_value(z.spec_add(a), a),
        same_value(a.spec_sub(z), a),
{
    assert(magnitude_of(0) == 0);
    lemma_magnitude_order(0, a.abs_bits());
    if a.is_finite() {
        lemma_rounds_held(a.abs_bits(), 1);
    }
}

} // verus!
