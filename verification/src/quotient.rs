//! Division and square root of binary32 numbers, and truncation to a whole
//! number.

use vstd::prelude::*;
use vstd::arithmetic::power2::*;
use vstd::arithmetic::div_mod::*;
use crate::binary32::{
    Binary32, lemma_magnitude_order, lemma_magnitude_linear, unit_scale, INFINITY_BITS, NAN_BITS,
};
use crate::rounding::{
    nearest, nearest_root, lemma_nearest_is, lemma_nearest_root_is, lemma_packs_rounds,
    lemma_packs_root_rounds, round_pack, pow2_u64, bit_length, up_scale, down_scale,
    lemma_pow2_le,
};
use crate::arith::{unpack, pack, lemma_scale_split};

verus! {

/// The whole part of the square root.
pub(crate) fn isqrt(v: u64) -> (r: u64)
    requires
        v < 0x100_0000_0000_0000,
    ensures
        r * r <= v < (r + 1) * (r + 1),
        r < 0x1000_0000,
{
    let mut lo: u64 = 0;
    let mut hi: u64 = 0x1000_0000;
    while hi - lo > 1
        invariant
            lo < hi <= 0x1000_0000,
            lo * lo <= v < hi * hi,
        decreases hi - lo,
    {
        let mid = lo + (hi - lo) / 2;
        assert(mid * mid < 0x100_0000_0000_0000) by (nonlinear_arith)
            requires
                mid < 0x1000_0000,
        ;
        if mid * mid <= v {
            lo = mid;
        } else {
            hi = mid;
        }
    }
    lo
}

impl Binary32 {
    /// The quotient as the format defines it: a NaN if either operand is
    /// one, or both are infinite, or both are zero; an infinity if the
    /// dividend is infinite or the divisor zero; a zero if the divisor is
    /// infinite or the dividend zero; else the exact quotient rounded to
    /// nearest, ties to even. The sign is what the two signs give.
    pub open spec fn spec_div(self, other: Binary32) -> Binary32 {
        let negative = self.sign() != other.sign();
        if self.is_nan() || other.is_nan() {
            Binary32::nan()
        } else if (self.is_infinite() && other.is_infinite()) || (self.is_zero()
            && other.is_zero()) {
            Binary32::nan()
        } else if self.is_infinite() || other.is_zero() {
            Binary32::compose(negative, INFINITY_BITS as int)
        } else if other.is_infinite() || self.is_zero() {
            Binary32::compose(negative, 0)
        } else {
            Binary32::compose(negative, nearest(self.magnitude() * unit_scale(), other.magnitude()))
        }
    }

    /// The square root as the format defines it: a NaN for a NaN and for
    /// every negative number but the negative zero; the number itself for a
    /// zero and for positive infinity; else the exact root rounded to
    /// nearest, ties to even.
    pub open spec fn spec_sqrt(self) -> Binary32 {
        if self.is_nan() {
            Binary32::nan()
        } else if self.is_zero() {
            self
        } else if self.sign() {
            Binary32::nan()
        } else if self.is_infinite() {
            self
        } else {
            Binary32::compose(false, nearest_root(self.magnitude() * unit_scale()))
        }
    }

    /// The number cut off towards zero and held to the range of `i32`; zero
    /// for a NaN.
    pub open spec fn spec_to_i32(self) -> int {
        let whole = self.magnitude() / unit_scale();
        if self.is_nan() {
            0
        } else if self.sign() {
            if whole >= 0x8000_0000 {
                -0x8000_0000
            } else {
                -whole
            }
        } else {
            if whole >= 0x8000_0000 {
                0x7fff_ffff
            } else {
                whole
            }
        }
    }

    /// `self / other`.
    pub fn div(self, other: Binary32) -> (r: Binary32)
        ensures
            r == self.spec_div(other),
    {
        let ma = self.magnitude_bits();
        let mb = other.magnitude_bits();
        let negative = self.is_sign_negative() != other.is_sign_negative();
        if ma > INFINITY_BITS || mb > INFINITY_BITS {
            return Binary32 { bits: NAN_BITS };
        }
        if ma == INFINITY_BITS {
            if mb == INFINITY_BITS {
                return Binary32 { bits: NAN_BITS };
            }
            return pack(negative, INFINITY_BITS);
        }
        if mb == INFINITY_BITS {
            return pack(negative, 0);
        }
        if mb == 0 {
            if ma == 0 {
                return Binary32 { bits: NAN_BITS };
            }
            return pack(negative, INFINITY_BITS);
        }
        if ma == 0 {
            return pack(negative, 0);
        }
        let (sa, ea) = unpack(ma);
        let (sb, eb) = unpack(mb);
        let la = bit_length(sa);
        proof {
            lemma2_to64();
            lemma2_to64_rest();
            if la > 24 {
                lemma_pow2_le(24, (la - 1) as nat);
            }
        }
        let lift = 62 - la;
        let scale = pow2_u64(lift);
        proof {
            lemma_pow2_adds((la - 1) as nat, lift as nat);
            lemma_pow2_adds(la as nat, lift as nat);
            assert(sa * scale < pow2(la as nat) * scale) by (nonlinear_arith)
                requires
                    sa < pow2(la as nat),
                    scale > 0,
            ;
            assert(pow2((la - 1) as nat) * scale <= sa * scale) by (nonlinear_arith)
                requires
                    pow2((la - 1) as nat) <= sa,
                    scale > 0,
            ;
        }
        let top = sa * scale;
        let q = top / sb;
        let rem = top % sb;
        let exp = ea as i32 + 149 - lift as i32 - eb as i32;
        proof {
            lemma_fundamental_div_mod(top as int, sb as int);
            assert(q >= 0x200_0000) by (nonlinear_arith)
                requires
                    top == sb * q + rem,
                    rem < sb,
                    sb < 0x100_0000,
                    top >= 0x2000_0000_0000_0000,
                    q >= 0,
            ;
        }
        let n = round_pack(q, exp, rem != 0);
        proof {
            let pa = pow2(ea as nat) as int;
            let pb = pow2(eb as nat) as int;
            let e1 = (ea + 149) as nat;
            let e2 = (lift + eb) as nat;
            let u = up_scale(exp as int);
            let w = down_scale(exp as int);
            let num = self.magnitude() * unit_scale();
            let den = other.magnitude();
            let k = u * pb;
            lemma_pow2_pos(eb as nat);
            lemma_pow2_adds(ea as nat, 149);
            lemma_pow2_adds(lift as nat, eb as nat);
            lemma_scale_split(e1, e2);
            assert(k > 0) by (nonlinear_arith)
                requires
                    k == u * pb,
                    u > 0,
                    pb > 0,
            ;
            assert(den > 0) by (nonlinear_arith)
                requires
                    den == sb * pb,
                    sb > 0,
                    pb > 0,
            ;
            assert(num * w == top * k) by (nonlinear_arith)
                requires
                    num == (sa * pa) * pow2(149),
                    pow2(e1) == pa * pow2(149),
                    u * pow2(e2) == pow2(e1) * w,
                    pow2(e2) == scale * pb,
                    top == sa * scale,
                    k == u * pb,
            ;
            assert(q * u * den == (q * sb) * k) by (nonlinear_arith)
                requires
                    den == sb * pb,
                    k == u * pb,
            ;
            assert((q + 1) * u * den == (q * sb + sb) * k) by (nonlinear_arith)
                requires
                    den == sb * pb,
                    k == u * pb,
            ;
            assert(top * k == (q * sb) * k + rem * k) by (nonlinear_arith)
                requires
                    top == sb * q + rem,
            ;
            assert((q * sb + sb) * k == (q * sb) * k + sb * k) by (nonlinear_arith);
            assert(rem * k < sb * k) by (nonlinear_arith)
                requires
                    rem < sb,
                    k > 0,
            ;
            assert(rem != 0 ==> rem * k > 0) by (nonlinear_arith)
                requires
                    rem >= 0,
                    k > 0,
            ;
            assert(rem == 0 ==> rem * k == 0) by (nonlinear_arith);
            lemma_packs_rounds(n as int, q as int, exp as int, rem != 0, num, den);
            lemma_nearest_is(n as int, num, den);
        }
        pack(negative, n)
    }

    /// The square root.
    pub fn sqrt(self) -> (r: Binary32)
        ensures
            r == self.spec_sqrt(),
    {
        let m = self.magnitude_bits();
        if m > INFINITY_BITS {
            return Binary32 { bits: NAN_BITS };
        }
        if m == 0 {
            return self;
        }
        if self.is_sign_negative() {
            return Binary32 { bits: NAN_BITS };
        }
        if m == INFINITY_BITS {
            return self;
        }
        let (sa, ea) = unpack(m);
        let la = bit_length(sa);
        proof {
            lemma2_to64();
            lemma2_to64_rest();
            if la > 24 {
                lemma_pow2_le(24, (la - 1) as nat);
            }
        }
        let total = ea + 149;
        let lift = if (total - (54 - la)) % 2 == 0 {
            54 - la
        } else {
            55 - la
        };
        let scale = pow2_u64(lift);
        proof {
            lemma_pow2_adds((la - 1) as nat, lift as nat);
            lemma_pow2_adds(la as nat, lift as nat);
            lemma_pow2_le((la + lift) as nat, 55);
            lemma_pow2_le(53, (la - 1 + lift) as nat);
            assert(sa * scale < pow2(la as nat) * scale) by (nonlinear_arith)
                requires
                    sa < pow2(la as nat),
                    scale > 0,
            ;
            assert(pow2((la - 1) as nat) * scale <= sa * scale) by (nonlinear_arith)
                requires
                    pow2((la - 1) as nat) <= sa,
                    scale > 0,
            ;
        }
        let radicand = sa * scale;
        let root = isqrt(radicand);
        let inexact = root * root != radicand;
        let exp = (total - lift) / 2;
        proof {
            assert(root >= 0x200_0000) by (nonlinear_arith)
                requires
                    radicand < (root + 1) * (root + 1),
                    radicand >= 0x20_0000_0000_0000,
                    root >= 0,
            ;
        }
        let n = round_pack(root, exp as i32, inexact);
        proof {
            let pa = pow2(ea as nat) as int;
            let u = pow2(exp as nat) as int;
            let square = self.magnitude() * unit_scale();
            let uu = u * u;
            lemma_pow2_pos(exp as nat);
            lemma_pow2_adds(ea as nat, 149);
            lemma_pow2_adds(exp as nat, exp as nat);
            lemma_pow2_adds(lift as nat, (total - lift) as nat);
            assert(total - lift == exp + exp);
            assert(square == radicand * uu) by (nonlinear_arith)
                requires
                    square == (sa * pa) * pow2(149),
                    pow2(total as nat) == pa * pow2(149),
                    pow2(total as nat) == scale * uu,
                    radicand == sa * scale,
            ;
            assert((root * u) * (root * u) == (root * root) * uu) by (nonlinear_arith)
                requires
                    uu == u * u,
            ;
            assert(((root + 1) * u) * ((root + 1) * u) == ((root + 1) * (root + 1)) * uu)
                by (nonlinear_arith)
                requires
                    uu == u * u,
            ;
            assert(uu > 0) by (nonlinear_arith)
                requires
                    uu == u * u,
                    u > 0,
            ;
            assert((root * root) * uu <= radicand * uu) by (nonlinear_arith)
                requires
                    root * root <= radicand,
                    uu > 0,
            ;
            assert(inexact ==> (root * root) * uu < radicand * uu) by (nonlinear_arith)
                requires
                    root * root <= radicand,
                    inexact == (root * root != radicand),
                    uu > 0,
            ;
            assert(radicand * uu < ((root + 1) * (root + 1)) * uu) by (nonlinear_arith)
                requires
                    radicand < (root + 1) * (root + 1),
                    uu > 0,
            ;
            lemma_packs_root_rounds(n as int, root as int, exp as int, inexact, square);
            lemma_nearest_root_is(n as int, square);
        }
        pack(false, n)
    }

    /// The number cut off towards zero, as a cast to `i32` does it: held to
    /// the range of `i32`, and zero for a NaN.
    pub fn to_i32(self) -> (r: i32)
        ensures
            r == self.spec_to_i32(),
    {
        let m = self.magnitude_bits();
        let negative = self.is_sign_negative();
        if m > INFINITY_BITS {
            return 0;
        }
        proof {
            lemma2_to64();
            lemma2_to64_rest();
            lemma_pow2_pos(149);
            lemma_magnitude_order(m as int, 0x4f00_0000);
            lemma_magnitude_order(m as int, 0x3f80_0000);
            lemma_magnitude_linear(157, 0x80_0000);
            lemma_magnitude_linear(126, 0x80_0000);
            lemma_pow2_adds(23, 157);
            lemma_pow2_adds(23, 126);
            lemma_pow2_adds(31, 149);
        }
        if m >= 0x4f00_0000 {
            proof {
                lemma_div_is_ordered(pow2(180) as int, self.magnitude(), pow2(149) as int);
                lemma_div_multiples_vanish(pow2(31) as int, pow2(149) as int);
            }
            return if negative {
                i32::MIN
            } else {
                i32::MAX
            };
        }
        if m < 0x3f80_0000 {
            proof {
                lemma_basic_div(self.magnitude(), pow2(149) as int);
            }
            return 0;
        }
        let (sa, ea) = unpack(m);
        let ghost pa = pow2(ea as nat) as int;
        let ghost unit = pow2(149) as int;
        assert(ea <= 156);
        let whole: u64 = if ea >= 149 {
            let scale = pow2_u64(ea - 149);
            proof {
                lemma_pow2_le((ea - 149) as nat, 7);
                lemma_pow2_adds((ea - 149) as nat, 149);
                assert(sa * scale < 0x8000_0000) by (nonlinear_arith)
                    requires
                        sa < 0x100_0000,
                        scale <= 0x80,
                ;
                assert(sa * pa == unit * (sa * scale)) by (nonlinear_arith)
                    requires
                        pa == scale * unit,
                ;
                lemma_div_multiples_vanish(sa * scale, unit);
                assert(self.magnitude() / unit == sa * scale);
            }
            sa * scale
        } else {
            let scale = pow2_u64(149 - ea);
            proof {
                lemma_pow2_adds(ea as nat, (149 - ea) as nat);
                lemma_pow2_pos(ea as nat);
                lemma_div_multiples_vanish_quotient(pa, sa as int, scale as int);
                assert(sa * pa == pa * sa) by (nonlinear_arith);
                assert(pa * scale == unit);
                assert(self.magnitude() / unit == sa as int / scale as int);
            }
            sa / scale
        };
        assert(whole == self.magnitude() / unit_scale());
        assert(whole < 0x8000_0000);
        if negative {
            -(whole as i32)
        } else {
            whole as i32
        }
    }
}

} // verus!
