//! The IEEE 754 binary32 format over bit patterns: what a pattern is worth,
//! how patterns are classified, ordered and negated.
//!
//! Every finite binary32 number is a whole multiple of 2^-149, so the worth
//! of a pattern is modelled as an `int` counting such units.

use vstd::prelude::*;
use vstd::arithmetic::power2::*;

verus! {

/// Pattern of positive infinity: the largest magnitude that is not a NaN.
pub const INFINITY_BITS: u32 = 0x7f80_0000;

/// The sign bit.
pub const SIGN_BIT: u32 = 0x8000_0000;

/// Pattern of the NaN that every operation here returns when it returns one.
pub const NAN_BITS: u32 = 0x7fc0_0000;

/// The bit just above the 23 fraction bits: the implicit leading one of a
/// normal number's significand.
pub const HIDDEN_BIT: u32 = 0x80_0000;

/// Number of 2^-149 units in one.
pub open spec fn unit_scale() -> int {
    pow2(149) as int
}

/// Worth of the magnitude pattern `n` (a pattern with the sign bit cleared),
/// in units of 2^-149.
///
/// Patterns below 2^24 are the subnormal numbers and the first binade, which
/// are evenly spaced one unit apart. From there on the exponent field `e`
/// scales the 24-bit significand by 2^(e-1). Infinity is given the worth that
/// the same formula yields, 2^277: the number that would follow the largest
/// finite one if the exponent range went on.
pub open spec fn magnitude_of(n: int) -> int {
    if n < 0x100_0000 {
        n
    } else {
        (0x80_0000 + n % 0x80_0000) * pow2((n / 0x80_0000 - 1) as nat)
    }
}

/// On each binade the worth is linear in the pattern: the pattern
/// `s * 2^23 + y` is worth `y * 2^s`, where `y` is the significand (at most
/// 2^24, and at least 2^23 unless `s` is zero).
pub proof fn lemma_magnitude_linear(s: nat, y: int)
    requires
        y <= 0x100_0000,
        if s == 0 {
            0 <= y
        } else {
            0x80_0000 <= y
        },
    ensures
        magnitude_of(s * 0x80_0000 + y) == y * pow2(s),
{
    let n = s * 0x80_0000 + y;
    lemma2_to64();
    if y == 0x100_0000 {
        assert(n == (s + 2) * 0x80_0000);
        assert(n / 0x80_0000 == s + 2 && n % 0x80_0000 == 0);
        lemma_pow2_unfold(s + 1);
        assert(magnitude_of(n) == 0x80_0000 * pow2(s + 1));
        assert(0x80_0000 * (2 * pow2(s)) == 0x100_0000 * pow2(s)) by (nonlinear_arith);
    } else if s == 0 {
        assert(y * pow2(0) == y);
    } else {
        let f = y - 0x80_0000;
        assert(n == (s + 1) * 0x80_0000 + f);
        assert(n / 0x80_0000 == s + 1 && n % 0x80_0000 == f);
    }
}

/// The binade index of a magnitude pattern, as `lemma_magnitude_linear` counts it.
pub open spec fn binade_of(n: int) -> nat {
    if n < 0x100_0000 {
        0
    } else {
        (n / 0x80_0000 - 1) as nat
    }
}

/// A pattern's worth, split by its binade.
pub proof fn lemma_magnitude_split(n: int)
    requires
        0 <= n,
    ensures
        magnitude_of(n) == (n - binade_of(n) * 0x80_0000) * pow2(binade_of(n)),
        n - binade_of(n) * 0x80_0000 < 0x100_0000,
        binade_of(n) == 0 ==> 0 <= n - binade_of(n) * 0x80_0000,
        binade_of(n) > 0 ==> 0x80_0000 <= n - binade_of(n) * 0x80_0000,
{
    let s = binade_of(n);
    let y = n - s * 0x80_0000;
    if n >= 0x100_0000 {
        assert(n == (s + 1) * 0x80_0000 + n % 0x80_0000);
    }
    lemma_magnitude_linear(s, y);
}

/// A larger pattern is worth strictly more.
pub proof fn lemma_magnitude_increases(n1: int, n2: int)
    requires
        0 <= n1 < n2,
    ensures
        magnitude_of(n1) < magnitude_of(n2),
{
    let s1 = binade_of(n1);
    let s2 = binade_of(n2);
    let y1 = n1 - s1 * 0x80_0000;
    let y2 = n2 - s2 * 0x80_0000;
    lemma_magnitude_split(n1);
    lemma_magnitude_split(n2);
    lemma_pow2_pos(s1);
    lemma_pow2_pos(s2);
    assert(s1 <= s2);
    if s1 == s2 {
        assert(y1 * pow2(s1) < y2 * pow2(s1)) by (nonlinear_arith)
            requires
                y1 < y2,
                pow2(s1) > 0,
        ;
    } else {
        lemma_pow2_unfold(s1 + 1);
        if s1 + 1 < s2 {
            lemma_pow2_strictly_increases(s1 + 1, s2);
        }
        assert(y1 * pow2(s1) < 0x80_0000 * pow2(s2)) by (nonlinear_arith)
            requires
                y1 < 0x100_0000,
                pow2(s1) > 0,
                2 * pow2(s1) <= pow2(s2),
        ;
        assert(0x80_0000 * pow2(s2) <= y2 * pow2(s2)) by (nonlinear_arith)
            requires
                0x80_0000 <= y2,
                pow2(s2) > 0,
        ;
    }
}

/// Patterns and their worths are ordered alike.
pub proof fn lemma_magnitude_order(n1: int, n2: int)
    requires
        0 <= n1,
        0 <= n2,
    ensures
        n1 < n2 <==> magnitude_of(n1) < magnitude_of(n2),
        n1 == n2 <==> magnitude_of(n1) == magnitude_of(n2),
        magnitude_of(n1) >= 0,
{
    if n1 < n2 {
        lemma_magnitude_increases(n1, n2);
    }
    if n2 < n1 {
        lemma_magnitude_increases(n2, n1);
    }
    if 0 < n1 {
        lemma_magnitude_increases(0, n1);
    }
}

/// A number in the IEEE 754 binary32 format, held by its bit pattern.
///
/// The derived `==` compares patterns. The format's own equality, under which
/// the two zeros are equal and a NaN equals nothing, is `equals`.
#[derive(Clone, Copy, Debug, PartialEq, Eq, Structural)]
pub struct Binary32 {
    pub bits: u32,
}

impl Binary32 {
    /// Whether the sign bit is set.
    pub open spec fn sign(self) -> bool {
        self.bits >= SIGN_BIT
    }

    /// The pattern with the sign bit cleared.
    pub open spec fn abs_bits(self) -> int {
        if self.bits >= SIGN_BIT {
            self.bits - SIGN_BIT
        } else {
            self.bits as int
        }
    }

    /// Not a number: the exponent field is all ones and the fraction is not zero.
    pub open spec fn is_nan(self) -> bool {
        self.abs_bits() > INFINITY_BITS
    }

    /// Positive or negative infinity.
    pub open spec fn is_infinite(self) -> bool {
        self.abs_bits() == INFINITY_BITS
    }

    /// Zero, subnormal or normal.
    pub open spec fn is_finite(self) -> bool {
        self.abs_bits() < INFINITY_BITS
    }

    /// Positive or negative zero.
    pub open spec fn is_zero(self) -> bool {
        self.abs_bits() == 0
    }

    /// The absolute value in units of 2^-149 (2^277 for an infinity).
    /// Meaningless for a NaN.
    pub open spec fn magnitude(self) -> int {
        magnitude_of(self.abs_bits())
    }

    /// The value in units of 2^-149 (plus or minus 2^277 for an infinity).
    /// Meaningless for a NaN.
    pub open spec fn scaled(self) -> int {
        if self.sign() {
            -self.magnitude()
        } else {
            self.magnitude()
        }
    }

    /// The number with the given sign and magnitude pattern.
    pub open spec fn compose(sign: bool, abs_bits: int) -> Binary32 {
        Binary32 {
            bits: (if sign {
                abs_bits + SIGN_BIT
            } else {
                abs_bits
            }) as u32,
        }
    }

    /// The NaN that operations return.
    pub open spec fn nan() -> Binary32 {
        Binary32 { bits: NAN_BITS }
    }

    /// `self < other` as the format orders numbers: by value, a NaN being
    /// below nothing and above nothing.
    pub open spec fn spec_lt(self, other: Binary32) -> bool {
        !self.is_nan() && !other.is_nan() && self.scaled() < other.scaled()
    }

    /// `self <= other` as the format orders numbers.
    pub open spec fn spec_le(self, other: Binary32) -> bool {
        !self.is_nan() && !other.is_nan() && self.scaled() <= other.scaled()
    }

    /// `self == other` as the format compares numbers: by value, so that the
    /// two zeros are equal and a NaN equals nothing.
    pub open spec fn spec_equals(self, other: Binary32) -> bool {
        !self.is_nan() && !other.is_nan() && self.scaled() == other.scaled()
    }

    /// The number with the pattern `bits`.
    pub fn from_bits(bits: u32) -> (r: Binary32)
        ensures
            r.bits == bits,
    {
        Binary32 { bits }
    }

    /// The pattern.
    pub fn to_bits(self) -> (r: u32)
        ensures
            r == self.bits,
    {
        self.bits
    }

    /// Positive zero.
    pub fn zero() -> (r: Binary32)
        ensures
            r.bits == 0,
            r.scaled() == 0,
    {
        Binary32 { bits: 0 }
    }

    /// One.
    pub fn one() -> (r: Binary32)
        ensures
            r.bits == 0x3f80_0000,
            r.scaled() == unit_scale(),
    {
        proof {
            lemma_one_is_unit_scale();
        }
        Binary32 { bits: 0x3f80_0000 }
    }

    /// Whether the sign bit is set.
    pub fn is_sign_negative(self) -> (r: bool)
        ensures
            r == self.sign(),
    {
        self.bits >= SIGN_BIT
    }

    /// The pattern with the sign bit cleared.
    pub fn magnitude_bits(self) -> (r: u32)
        ensures
            r == self.abs_bits(),
    {
        if self.bits >= SIGN_BIT {
            self.bits - SIGN_BIT
        } else {
            self.bits
        }
    }

    /// Whether this is a NaN.
    pub fn nan_test(self) -> (r: bool)
        ensures
            r == self.is_nan(),
    {
        self.magnitude_bits() > INFINITY_BITS
    }

    /// The number with the sign bit flipped: the negation, exact for every
    /// number, and a NaN for a NaN.
    pub fn neg(self) -> (r: Binary32)
        ensures
            r == self.spec_neg(),
    {
        if self.bits >= SIGN_BIT {
            Binary32 { bits: self.bits - SIGN_BIT }
        } else {
            Binary32 { bits: self.bits + SIGN_BIT }
        }
    }

    /// The number with the sign bit flipped.
    pub open spec fn spec_neg(self) -> Binary32 {
        Binary32::compose(!self.sign(), self.abs_bits())
    }

    /// `self < other` by value; false if either is a NaN.
    pub fn lt(self, other: Binary32) -> (r: bool)
        ensures
            r == self.spec_lt(other),
    {
        let ma = self.magnitude_bits();
        let mb = other.magnitude_bits();
        proof {
            lemma_magnitude_order(ma as int, mb as int);
            lemma_magnitude_order(mb as int, ma as int);
            lemma_magnitude_order(0, ma as int);
            lemma_magnitude_order(0, mb as int);
        }
        if ma > INFINITY_BITS || mb > INFINITY_BITS {
            false
        } else if self.bits >= SIGN_BIT {
            if other.bits >= SIGN_BIT {
                mb < ma
            } else {
                ma != 0 || mb != 0
            }
        } else {
            other.bits < SIGN_BIT && ma < mb
        }
    }

    /// `self > other` by value; false if either is a NaN.
    pub fn gt(self, other: Binary32) -> (r: bool)
        ensures
            r == other.spec_lt(self),
    {
        other.lt(self)
    }

    /// `self == other` by value; false if either is a NaN.
    pub fn equals(self, other: Binary32) -> (r: bool)
        ensures
            r == self.spec_equals(other),
    {
        let ma = self.magnitude_bits();
        let mb = other.magnitude_bits();
        proof {
            lemma_magnitude_order(ma as int, mb as int);
            lemma_magnitude_order(0, ma as int);
            lemma_magnitude_order(0, mb as int);
        }
        if ma > INFINITY_BITS || mb > INFINITY_BITS {
            false
        } else if ma == 0 && mb == 0 {
            true
        } else {
            self.bits == other.bits
        }
    }

    /// `self <= other` by value; false if either is a NaN.
    pub fn le(self, other: Binary32) -> (r: bool)
        ensures
            r == self.spec_le(other),
    {
        self.lt(other) || self.equals(other)
    }

    /// `self >= other` by value; false if either is a NaN.
    pub fn ge(self, other: Binary32) -> (r: bool)
        ensures
            r == other.spec_le(self),
    {
        other.lt(self) || other.equals(self)
    }
}

/// The pattern 0x3f800000 is worth one: 2^149 units.
pub proof fn lemma_one_is_unit_scale()
    ensures
        (Binary32 { bits: 0x3f80_0000 }).scaled() == unit_scale(),
{
    lemma_magnitude_linear(126, 0x80_0000);
    lemma_pow2_adds(23, 126);
    lemma2_to64();
}

/// Negation negates the value and keeps a NaN a NaN.
pub proof fn lemma_neg_negates(a: Binary32)
    ensures
        a.spec_neg().scaled() == -a.scaled(),
        a.spec_neg().is_nan() == a.is_nan(),
        a.spec_neg().spec_neg() == a,
{
}

} // verus!
