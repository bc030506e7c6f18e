//! Rounding to nearest, ties to even: which binary32 pattern stands for an
//! exact value, and the one routine that finds it.

use vstd::prelude::*;
use vstd::arithmetic::power2::*;
use vstd::arithmetic::div_mod::*;
use vstd::bits::*;
use crate::binary32::{
    magnitude_of, lemma_magnitude_order, lemma_magnitude_linear, lemma_magnitude_increases,
    INFINITY_BITS, HIDDEN_BIT,
};

verus! {

/// Whether the magnitude pattern `n` is the exact value `num / den`, counted
/// in units of 2^-149, rounded to nearest with ties to even.
///
/// The value must lie between the midpoint below `n` and the midpoint above
/// it, and may sit on a midpoint only if `n` is even. Infinity has no
/// midpoint above it, so every value from the midpoint between the largest
/// finite number and 2^128 upwards rounds to infinity, as the format asks.
pub open spec fn rounds_to(n: int, num: int, den: int) -> bool {
    &&& 0 <= n <= INFINITY_BITS
    &&& (n > 0 ==> ({
        let m = magnitude_of(n - 1) + magnitude_of(n);
        m * den < 2 * num || (m * den == 2 * num && n % 2 == 0)
    }))
    &&& (n < INFINITY_BITS ==> ({
        let m = magnitude_of(n) + magnitude_of(n + 1);
        2 * num < m * den || (2 * num == m * den && n % 2 == 0)
    }))
}

/// Whether the magnitude pattern `n` is the square root of `square`, both
/// counted in units of 2^-149, rounded to nearest with ties to even.
/// Midpoints are compared with the root by their squares.
pub open spec fn root_rounds_to(n: int, square: int) -> bool {
    &&& 0 <= n <= INFINITY_BITS
    &&& (n > 0 ==> ({
        let m = magnitude_of(n - 1) + magnitude_of(n);
        m * m < 4 * square || (m * m == 4 * square && n % 2 == 0)
    }))
    &&& (n < INFINITY_BITS ==> ({
        let m = magnitude_of(n) + magnitude_of(n + 1);
        4 * square < m * m || (4 * square == m * m && n % 2 == 0)
    }))
}

/// The magnitude pattern that `num / den` units round to.
pub open spec fn nearest(num: int, den: int) -> int {
    choose|n: int| rounds_to(n, num, den)
}

/// The magnitude pattern that the square root of `square` rounds to.
pub open spec fn nearest_root(square: int) -> int {
    choose|n: int| root_rounds_to(n, square)
}

/// At most one pattern is the rounding of a value.
pub proof fn lemma_rounding_unique(n1: int, n2: int, num: int, den: int)
    requires
        den > 0,
        rounds_to(n1, num, den),
        rounds_to(n2, num, den),
    ensures
        n1 == n2,
{
    lemma_rounding_not_below(n1, n2, num, den);
    lemma_rounding_not_below(n2, n1, num, den);
}

proof fn lemma_rounding_not_below(n1: int, n2: int, num: int, den: int)
    requires
        den > 0,
        rounds_to(n1, num, den),
        rounds_to(n2, num, den),
    ensures
        n1 >= n2,
{
    if n1 >= n2 {
        return ;
    }
    let up = magnitude_of(n1) + magnitude_of(n1 + 1);
    let low = magnitude_of(n2 - 1) + magnitude_of(n2);
    lemma_magnitude_order(n1, n2 - 1);
    lemma_magnitude_order(n1 + 1, n2);
    assert(up <= low);
    assert(up * den <= low * den) by (nonlinear_arith)
        requires
            up <= low,
            den > 0,
    ;
    if n1 + 1 < n2 {
        assert(up * den < low * den) by (nonlinear_arith)
            requires
                up < low,
                den > 0,
        ;
    }
}

/// At most one pattern is the rounding of a square root.
pub proof fn lemma_root_rounding_unique(n1: int, n2: int, square: int)
    requires
        root_rounds_to(n1, square),
        root_rounds_to(n2, square),
    ensures
        n1 == n2,
{
    lemma_root_rounding_not_below(n1, n2, square);
    lemma_root_rounding_not_below(n2, n1, square);
}

proof fn lemma_root_rounding_not_below(n1: int, n2: int, square: int)
    requires
        root_rounds_to(n1, square),
        root_rounds_to(n2, square),
    ensures
        n1 >= n2,
{
    if n1 >= n2 {
        return ;
    }
    let up = magnitude_of(n1) + magnitude_of(n1 + 1);
    let low = magnitude_of(n2 - 1) + magnitude_of(n2);
    lemma_magnitude_order(n1, n2 - 1);
    lemma_magnitude_order(n1 + 1, n2);
    assert(0 <= up <= low);
    assert(up * up <= low * low) by (nonlinear_arith)
        requires
            0 <= up <= low,
    ;
    if n1 + 1 < n2 {
        assert(up * up < low * low) by (nonlinear_arith)
            requires
                0 <= up < low,
        ;
    }
}

/// A pattern that is the rounding of a value is the one `nearest` names.
pub proof fn lemma_nearest_is(n: int, num: int, den: int)
    requires
        den > 0,
        rounds_to(n, num, den),
    ensures
        nearest(num, den) == n,
{
    lemma_rounding_unique(n, nearest(num, den), num, den);
}

/// A pattern that is the rounding of a root is the one `nearest_root` names.
pub proof fn lemma_nearest_root_is(n: int, square: int)
    requires
        root_rounds_to(n, square),
    ensures
        nearest_root(square) == n,
{
    lemma_root_rounding_unique(n, nearest_root(square), square);
}

/// Whether `num / den` units lie above the midpoint below the pattern `n`,
/// or on it with `n` even. Every value lies above what is below zero.
pub open spec fn above_lower_midpoint(n: int, num: int, den: int) -> bool {
    n > 0 ==> ({
        let m = magnitude_of(n - 1) + magnitude_of(n);
        m * den < 2 * num || (m * den == 2 * num && n % 2 == 0)
    })
}

proof fn lemma_rounding_from(k: int, num: int, den: int) -> (n: int)
    requires
        den > 0,
        0 <= k <= INFINITY_BITS,
        above_lower_midpoint(k, num, den),
    ensures
        rounds_to(n, num, den),
    decreases INFINITY_BITS - k,
{
    if k == INFINITY_BITS {
        k
    } else {
        let m = magnitude_of(k) + magnitude_of(k + 1);
        if 2 * num < m * den || (2 * num == m * den && k % 2 == 0) {
            k
        } else {
            lemma_rounding_from(k + 1, num, den)
        }
    }
}

/// Every value has a rounding, so `nearest` names one.
pub proof fn lemma_rounding_exists(num: int, den: int)
    requires
        den > 0,
    ensures
        rounds_to(nearest(num, den), num, den),
{
    let n = lemma_rounding_from(0, num, den);
    assert(rounds_to(n, num, den));
}

/// Rounding keeps the order: of two values, the larger does not round to
/// the smaller pattern.
pub proof fn lemma_rounding_monotone(n1: int, num1: int, den1: int, n2: int, num2: int, den2: int)
    requires
        den1 > 0,
        den2 > 0,
        rounds_to(n1, num1, den1),
        rounds_to(n2, num2, den2),
        num1 * den2 <= num2 * den1,
    ensures
        n1 <= n2,
{
    if n1 > n2 {
        let low = magnitude_of(n1 - 1) + magnitude_of(n1);
        let up = magnitude_of(n2) + magnitude_of(n2 + 1);
        lemma_magnitude_order(n2, n1 - 1);
        lemma_magnitude_order(n2 + 1, n1);
        lemma_magnitude_order(n2, n2 + 1);
        assert(0 <= up <= low);
        let a = num1 * den2;
        let b = num2 * den1;
        let dd = den1 * den2;
        // low * den1 <= 2 * num1 and 2 * num2 <= up * den2
        assert(low * dd <= 2 * a) by (nonlinear_arith)
            requires
                low * den1 <= 2 * num1,
                den2 > 0,
                a == num1 * den2,
                dd == den1 * den2,
        ;
        assert(2 * b <= up * dd) by (nonlinear_arith)
            requires
                2 * num2 <= up * den2,
                den1 > 0,
                b == num2 * den1,
                dd == den1 * den2,
        ;
        assert(dd > 0) by (nonlinear_arith)
            requires
                dd == den1 * den2,
                den1 > 0,
                den2 > 0,
        ;
        assert(up * dd <= low * dd) by (nonlinear_arith)
            requires
                up <= low,
                dd > 0,
        ;
        // so all of these are equal, and both values sit on one midpoint
        assert(up == low) by (nonlinear_arith)
            requires
                up <= low,
                low * dd <= up * dd,
                dd > 0,
        ;
        assert(n1 == n2 + 1);
        assert(low * den1 == 2 * num1) by (nonlinear_arith)
            requires
                low * den1 <= 2 * num1,
                low * dd == 2 * a,
                den2 > 0,
                a == num1 * den2,
                dd == den1 * den2,
        ;
        assert(up * den2 == 2 * num2) by (nonlinear_arith)
            requires
                2 * num2 <= up * den2,
                2 * b == up * dd,
                den1 > 0,
                b == num2 * den1,
                dd == den1 * den2,
        ;
    }
}

/// A value that the format holds rounds to its own pattern.
pub proof fn lemma_rounds_held(n: int, den: int)
    requires
        0 <= n <= INFINITY_BITS,
        den > 0,
    ensures
        rounds_to(n, magnitude_of(n) * den, den),
        nearest(magnitude_of(n) * den, den) == n,
{
    let x = magnitude_of(n);
    if n > 0 {
        lemma_magnitude_increases(n - 1, n);
        let m = magnitude_of(n - 1) + x;
        assert(m * den < 2 * (x * den)) by (nonlinear_arith)
            requires
                m < 2 * x,
                den > 0,
        ;
    }
    lemma_magnitude_increases(n, n + 1);
    let m = x + magnitude_of(n + 1);
    assert(2 * (x * den) < m * den) by (nonlinear_arith)
        requires
            2 * x < m,
            den > 0,
    ;
    lemma_nearest_is(n, x * den, den);
}

/// 2^exp where `exp` is not negative, else one: the numerator of 2^exp.
pub open spec fn up_scale(exp: int) -> int {
    if exp >= 0 {
        pow2(exp as nat) as int
    } else {
        1
    }
}

/// 2^-exp where `exp` is negative, else one: the denominator of 2^exp.
pub open spec fn down_scale(exp: int) -> int {
    if exp < 0 {
        pow2((-exp) as nat) as int
    } else {
        1
    }
}

/// Whether `n` is the rounding of every value from `sig * 2^exp` units up to,
/// but not including, `(sig + 1) * 2^exp` units; of the lower end alone
/// unless `inexact`, and of all but the lower end if `inexact`.
pub open spec fn packs(n: int, sig: int, exp: int, inexact: bool) -> bool {
    let u = up_scale(exp);
    let w = down_scale(exp);
    &&& 0 <= n <= INFINITY_BITS
    &&& (n > 0 ==> ({
        let m = magnitude_of(n - 1) + magnitude_of(n);
        m * w < 2 * (sig * u) || (m * w == 2 * (sig * u) && (inexact || n % 2 == 0))
    }))
    &&& (n < INFINITY_BITS ==> ({
        let m = magnitude_of(n) + magnitude_of(n + 1);
        if inexact {
            2 * ((sig + 1) * u) <= m * w
        } else {
            2 * (sig * u) < m * w || (2 * (sig * u) == m * w && n % 2 == 0)
        }
    }))
}

/// What `packs` says of an interval, `rounds_to` says of each value in it.
pub proof fn lemma_packs_rounds(n: int, sig: int, exp: int, inexact: bool, num: int, den: int)
    requires
        packs(n, sig, exp, inexact),
        den > 0,
        !inexact ==> sig * up_scale(exp) * den == num * down_scale(exp),
        inexact ==> sig * up_scale(exp) * den < num * down_scale(exp) < (sig + 1) * up_scale(exp)
            * den,
    ensures
        rounds_to(n, num, den),
{
    let u = up_scale(exp);
    let w = down_scale(exp);
    if exp >= 0 {
        lemma_pow2_pos(exp as nat);
    } else {
        lemma_pow2_pos((-exp) as nat);
    }
    let a = sig * u;
    let b = (sig + 1) * u;
    let x = num * w;
    if n > 0 {
        let m = magnitude_of(n - 1) + magnitude_of(n);
        let mw = m * w;
        assert(mw <= 2 * a);
        assert(mw * den == (m * den) * w) by (nonlinear_arith)
            requires
                mw == m * w,
        ;
        assert(mw * den <= 2 * a * den) by (nonlinear_arith)
            requires
                mw <= 2 * a,
                den > 0,
        ;
        if inexact || mw < 2 * a {
            assert(mw * den < 2 * x) by (nonlinear_arith)
                requires
                    mw <= 2 * a,
                    den > 0,
                    a * den <= x,
                    mw < 2 * a || a * den < x,
            ;
            assert(m * den < 2 * num) by (nonlinear_arith)
                requires
                    (m * den) * w < 2 * x,
                    x == num * w,
                    w > 0,
            ;
        } else {
            assert((m * den) * w == (2 * num) * w) by (nonlinear_arith)
                requires
                    mw * den == (m * den) * w,
                    mw == 2 * a,
                    a * den == x,
                    x == num * w,
            ;
            assert(m * den == 2 * num) by (nonlinear_arith)
                requires
                    (m * den) * w == (2 * num) * w,
                    w > 0,
            ;
        }
    }
    if n < INFINITY_BITS {
        let m = magnitude_of(n) + magnitude_of(n + 1);
        let mw = m * w;
        assert(mw * den == (m * den) * w) by (nonlinear_arith)
            requires
                mw == m * w,
        ;
        if inexact {
            assert(2 * b <= mw);
            assert(2 * x < mw * den) by (nonlinear_arith)
                requires
                    2 * b <= mw,
                    x < b * den,
                    den > 0,
            ;
            assert(2 * num < m * den) by (nonlinear_arith)
                requires
                    2 * x < (m * den) * w,
                    x == num * w,
                    w > 0,
            ;
        } else if 2 * a < mw {
            assert(2 * x < mw * den) by (nonlinear_arith)
                requires
                    2 * a < mw,
                    x == a * den,
                    den > 0,
            ;
            assert(2 * num < m * den) by (nonlinear_arith)
                requires
                    2 * x < (m * den) * w,
                    x == num * w,
                    w > 0,
            ;
        } else {
            assert((m * den) * w == (2 * num) * w) by (nonlinear_arith)
                requires
                    mw * den == (m * den) * w,
                    mw == 2 * a,
                    a * den == x,
                    x == num * w,
            ;
            assert(m * den == 2 * num) by (nonlinear_arith)
                requires
                    (m * den) * w == (2 * num) * w,
                    w > 0,
            ;
        }
    }
}

/// What `packs` says of an interval of roots, `root_rounds_to` says of the
/// square of each of them.
pub proof fn lemma_packs_root_rounds(n: int, sig: int, exp: int, inexact: bool, square: int)
    requires
        packs(n, sig, exp, inexact),
        sig >= 0,
        exp >= 0,
        !inexact ==> (sig * up_scale(exp)) * (sig * up_scale(exp)) == square,
        inexact ==> (sig * up_scale(exp)) * (sig * up_scale(exp)) < square < ((sig + 1)
            * up_scale(exp)) * ((sig + 1) * up_scale(exp)),
    ensures
        root_rounds_to(n, square),
{
    let u = up_scale(exp);
    lemma_pow2_pos(exp as nat);
    let a = sig * u;
    let b = (sig + 1) * u;
    assert(0 <= a) by (nonlinear_arith)
        requires
            a == sig * u,
            sig >= 0,
            u > 0,
    ;
    assert(0 <= b) by (nonlinear_arith)
        requires
            b == (sig + 1) * u,
            sig >= 0,
            u > 0,
    ;
    if n > 0 {
        let m = magnitude_of(n - 1) + magnitude_of(n);
        lemma_magnitude_order(n - 1, n);
        assert(m * 1 == m);
        assert(0 <= m <= 2 * a);
        assert(m * m <= 4 * (a * a)) by (nonlinear_arith)
            requires
                0 <= m <= 2 * a,
        ;
        if m < 2 * a {
            assert(m * m < 4 * (a * a)) by (nonlinear_arith)
                requires
                    0 <= m < 2 * a,
            ;
        } else {
            assert(m * m == 4 * (a * a)) by (nonlinear_arith)
                requires
                    m == 2 * a,
            ;
        }
    }
    if n < INFINITY_BITS {
        let m = magnitude_of(n) + magnitude_of(n + 1);
        assert(m * 1 == m);
        if inexact {
            assert(4 * (b * b) <= m * m) by (nonlinear_arith)
                requires
                    0 <= 2 * b <= m,
            ;
        } else if 2 * a < m {
            assert(4 * (a * a) < m * m) by (nonlinear_arith)
                requires
                    0 <= 2 * a < m,
            ;
        } else {
            assert(m * m == 4 * (a * a)) by (nonlinear_arith)
                requires
                    m == 2 * a,
            ;
        }
    }
}

/// 2^k.
pub(crate) fn pow2_u64(k: u32) -> (r: u64)
    requires
        k < 64,
    ensures
        r == pow2(k as nat),
{
    proof {
        lemma_u64_pow2_no_overflow(k as nat);
        lemma_u64_shl_is_mul(1, k as u64);
    }
    1u64 << (k as u64)
}

/// The number of bits up to and including the highest set bit; zero for zero.
pub(crate) fn bit_length(v: u64) -> (len: u32)
    ensures
        len <= 64,
        v == 0 <==> len == 0,
        v > 0 ==> pow2((len - 1) as nat) <= v < pow2(len as nat),
{
    let mut len: u32 = 0;
    let mut rest: u64 = v;
    proof {
        lemma2_to64();
    }
    while rest > 0
        invariant
            len <= 64,
            rest == v as int / pow2(len as nat) as int,
            len > 0 ==> pow2((len - 1) as nat) <= v,
            v == 0 <==> len == 0 && rest == 0,
        decreases rest,
    {
        proof {
            let p = pow2(len as nat) as int;
            lemma_pow2_pos(len as nat);
            lemma_pow2_unfold((len + 1) as nat);
            lemma_fundamental_div_mod(v as int, p);
            lemma_mod_bound(v as int, p);
            assert(p <= v) by (nonlinear_arith)
                requires
                    v == p * (v as int / p) + (v as int % p),
                    v as int / p >= 1,
                    v as int % p >= 0,
                    p > 0,
            ;
            if len == 64 {
                lemma2_to64_rest();
            }
            lemma_div_denominator(v as int, p, 2);
            assert(p * 2 == pow2((len + 1) as nat));
        }
        rest = rest / 2;
        len = len + 1;
    }
    proof {
        if v > 0 {
            let p = pow2(len as nat) as int;
            lemma_pow2_pos(len as nat);
            lemma_fundamental_div_mod(v as int, p);
            lemma_mod_bound(v as int, p);
            assert(p * 0 == 0);
        }
    }
    len
}

/// Powers of two grow with the exponent.
pub proof fn lemma_pow2_le(e1: nat, e2: nat)
    requires
        e1 <= e2,
    ensures
        pow2(e1) <= pow2(e2),
        pow2(e1) > 0,
{
    lemma_pow2_pos(e1);
    if e1 < e2 {
        lemma_pow2_strictly_increases(e1, e2);
    }
}

/// Values of 2^277 units and more round to infinity.
proof fn lemma_pack_overflow(sig: int, exp: int, inexact: bool, len: nat)
    requires
        len >= 1,
        exp >= 0,
        pow2((len - 1) as nat) <= sig,
        len - 1 + exp >= 277,
    ensures
        packs(INFINITY_BITS as int, sig, exp, inexact),
{
    let u = pow2(exp as nat) as int;
    let top = magnitude_of(INFINITY_BITS as int);
    lemma_magnitude_linear(253, 0x100_0000);
    lemma_magnitude_increases(INFINITY_BITS - 1, INFINITY_BITS as int);
    lemma2_to64();
    lemma_pow2_adds(24, 253);
    lemma_pow2_adds((len - 1) as nat, exp as nat);
    lemma_pow2_le(277, (len - 1 + exp) as nat);
    lemma_pow2_pos(exp as nat);
    assert(top == pow2(277));
    assert(pow2((len - 1) as nat) * u <= sig * u) by (nonlinear_arith)
        requires
            pow2((len - 1) as nat) <= sig,
            u > 0,
    ;
    let m = magnitude_of(INFINITY_BITS - 1) + top;
    assert(m * 1 < 2 * (sig * u));
}

/// A value that is itself a binary32 number rounds to that number.
proof fn lemma_pack_in_place(sig: int, exp: int, s: nat, y: int)
    requires
        s <= 253,
        exp >= s,
        y == sig * pow2((exp - s) as nat),
        0 <= y < 0x100_0000,
        s > 0 ==> y >= 0x80_0000,
    ensures
        packs(s * 0x80_0000 + y, sig, exp, false),
{
    let n = s * 0x80_0000 + y;
    let u = pow2(exp as nat) as int;
    let p = pow2(s) as int;
    let lift = pow2((exp - s) as nat) as int;
    lemma_pow2_adds((exp - s) as nat, s);
    lemma_magnitude_linear(s, y);
    assert(sig * u == magnitude_of(n)) by (nonlinear_arith)
        requires
            u == lift * p,
            y == sig * lift,
            magnitude_of(n) == y * p,
    ;
    if n > 0 {
        lemma_magnitude_increases(n - 1, n);
        let m = magnitude_of(n - 1) + magnitude_of(n);
        assert(m * 1 < 2 * (sig * u));
    }
    lemma_magnitude_increases(n, n + 1);
    let m = magnitude_of(n) + magnitude_of(n + 1);
    assert(2 * (sig * u) < m * 1);
}

/// Values below half a unit round to zero.
proof fn lemma_pack_vanish(sig: int, exp: int, inexact: bool)
    requires
        0 <= sig < 0x8000_0000_0000_0000,
        exp <= -64,
    ensures
        packs(0, sig, exp, inexact),
{
    let w = pow2((-exp) as nat) as int;
    lemma_pow2_le(64, (-exp) as nat);
    lemma2_to64();
    lemma2_to64_rest();
    assert(magnitude_of(0) + magnitude_of(1) == 1);
    assert(sig * 1 == sig);
    assert((sig + 1) * 1 == sig + 1);
    assert(1 * w == w);
}

/// The general case: the significand is cut `sh` bits from its low end, and
/// what is cut off decides the direction.
proof fn lemma_pack_cut(
    sig: int,
    exp: int,
    inexact: bool,
    s: nat,
    sh: nat,
    y: int,
    rem: int,
    up: bool,
)
    requires
        s <= 253,
        sh == s - exp,
        sh >= 1,
        sig == y * pow2(sh) + rem,
        0 <= rem < pow2(sh),
        0 <= y < 0x100_0000,
        s > 0 ==> y >= 0x80_0000,
        up == (2 * rem > pow2(sh) || (2 * rem == pow2(sh) && (inexact || y % 2 == 1))),
    ensures
        packs(
            s * 0x80_0000 + y + if up {
                1int
            } else {
                0int
            },
            sig,
            exp,
            inexact,
        ),
{
    let n0 = s * 0x80_0000 + y;
    let u = up_scale(exp);
    let w = down_scale(exp);
    let p = pow2(s) as int;
    let h = pow2(sh) as int;
    let q = h * u;
    lemma_pow2_pos(s);
    lemma_pow2_unfold(sh);
    if exp >= 0 {
        lemma_pow2_pos(exp as nat);
        lemma_pow2_adds(sh, exp as nat);
        assert(p * w == q);
    } else {
        lemma_pow2_pos((-exp) as nat);
        lemma_pow2_adds(s, (-exp) as nat);
        assert(p * w == q);
    }
    lemma_magnitude_linear(s, y);
    lemma_magnitude_linear(s, y + 1);
    let lo = magnitude_of(n0);
    let hi = magnitude_of(n0 + 1);
    assert(lo * w == y * q) by (nonlinear_arith)
        requires
            lo == y * p,
            p * w == q,
    ;
    assert(hi * w == y * q + q) by (nonlinear_arith)
        requires
            hi == (y + 1) * p,
            p * w == q,
    ;
    assert(sig * u == y * q + rem * u) by (nonlinear_arith)
        requires
            sig == y * h + rem,
            q == h * u,
    ;
    assert((sig + 1) * u == y * q + (rem + 1) * u) by (nonlinear_arith)
        requires
            sig == y * h + rem,
            q == h * u,
    ;
    assert(0 <= rem * u) by (nonlinear_arith)
        requires
            0 <= rem,
            u > 0,
    ;
    assert((rem + 1) * u <= q) by (nonlinear_arith)
        requires
            rem + 1 <= h,
            q == h * u,
            u > 0,
    ;
    assert((lo + hi) * w == lo * w + hi * w) by (nonlinear_arith);
    // how twice the cut-off part compares with a full step decides the rest
    let half = pow2((sh - 1) as nat) as int;
    assert(q == 2 * (half * u)) by (nonlinear_arith)
        requires
            q == h * u,
            h == 2 * half,
    ;
    assert((rem + 1) * u == rem * u + u) by (nonlinear_arith);
    if 2 * rem < h {
        assert((rem + 1) * u <= half * u) by (nonlinear_arith)
            requires
                rem + 1 <= half,
                u > 0,
        ;
    }
    assert(2 * rem < h ==> 2 * (rem * u) < q) by (nonlinear_arith)
        requires
            q == h * u,
            u > 0,
    ;
    assert(2 * rem > h ==> 2 * (rem * u) > q) by (nonlinear_arith)
        requires
            q == h * u,
            u > 0,
    ;
    assert(2 * rem == h ==> 2 * (rem * u) == q) by (nonlinear_arith)
        requires
            q == h * u,
    ;
    if up {
        let n = n0 + 1;
        lemma_magnitude_increases(n, n + 1);
        let above = magnitude_of(n) + magnitude_of(n + 1);
        assert(above * w > 2 * (hi * w)) by (nonlinear_arith)
            requires
                above > 2 * hi,
                w > 0,
        ;
    } else {
        if n0 > 0 {
            lemma_magnitude_increases(n0 - 1, n0);
            let below = magnitude_of(n0 - 1) + magnitude_of(n0);
            assert(below * w < 2 * (lo * w)) by (nonlinear_arith)
                requires
                    below < 2 * lo,
                    w > 0,
            ;
        }
    }
}

/// The rounding of an exact value given as a significand and an exponent:
/// the value lies from `sig * 2^exp` units up to, but not including,
/// `(sig + 1) * 2^exp` units, and `inexact` says that it is not the lower
/// end. An inexact value needs a significand of 26 bits or more, so that the
/// bits that decide the direction are all there.
#[verifier::rlimit(40)]
pub(crate) fn round_pack(sig: u64, exp: i32, inexact: bool) -> (n: u32)
    requires
        sig < 0x8000_0000_0000_0000,
        -1000 <= exp <= 1000,
        inexact ==> sig >= 0x200_0000,
    ensures
        packs(n as int, sig as int, exp as int, inexact),
{
    proof {
        lemma2_to64();
        lemma2_to64_rest();
    }
    if sig == 0 {
        proof {
            if exp >= 0 {
                lemma_pow2_pos(exp as nat);
            } else {
                lemma_pow2_pos((-exp) as nat);
            }
            assert(0 * up_scale(exp as int) == 0);
            assert(1 * down_scale(exp as int) == down_scale(exp as int));
        }
        return 0;
    }
    let len = bit_length(sig);
    proof {
        if len >= 64 {
            lemma_pow2_le(63, (len - 1) as nat);
        }
        if inexact && len <= 25 {
            lemma_pow2_le(len as nat, 25);
        }
    }
    let k: i32 = len as i32 - 1 + exp;
    let s: i32 = if k >= 24 {
        k - 23
    } else {
        0
    };
    if s >= 254 {
        proof {
            lemma_pack_overflow(sig as int, exp as int, inexact, len as nat);
        }
        return INFINITY_BITS;
    }
    let sh: i32 = s - exp;
    if sh <= 0 {
        let lift = pow2_u64((-sh) as u32);
        proof {
            lemma_pow2_adds((len - 1) as nat, (-sh) as nat);
            lemma_pow2_adds(len as nat, (-sh) as nat);
            lemma_pow2_le((len - sh) as nat, 24);
            if s > 0 {
                assert(len - 1 - sh == 23);
            }
            assert(sig * lift < pow2(len as nat) * lift) by (nonlinear_arith)
                requires
                    sig < pow2(len as nat),
                    lift > 0,
            ;
            assert(pow2((len - 1) as nat) * lift <= sig * lift) by (nonlinear_arith)
                requires
                    pow2((len - 1) as nat) <= sig,
                    lift > 0,
            ;
        }
        let y = sig * lift;
        proof {
            lemma_pack_in_place(sig as int, exp as int, s as nat, y as int);
        }
        (s as u32) * HIDDEN_BIT + (y as u32)
    } else if sh >= 64 {
        proof {
            lemma_pack_vanish(sig as int, exp as int, inexact);
        }
        0
    } else {
        let step = pow2_u64(sh as u32);
        let y = sig / step;
        let rem = sig % step;
        let half = step / 2;
        let up = rem > half || (rem == half && (inexact || y % 2 == 1));
        proof {
            lemma_pow2_unfold(sh as nat);
            lemma_fundamental_div_mod(sig as int, step as int);
            lemma_pow2_le(len as nat, (sh + 24) as nat);
            lemma_pow2_adds(sh as nat, 24);
            assert(y < 0x100_0000) by (nonlinear_arith)
                requires
                    sig == step * y + rem,
                    rem >= 0,
                    sig < step * 0x100_0000,
                    step > 0,
            ;
            if s > 0 {
                assert(sh == len - 24);
                lemma_pow2_adds(sh as nat, 23);
                assert(y >= 0x80_0000) by (nonlinear_arith)
                    requires
                        sig == step * y + rem,
                        rem < step,
                        sig >= step * 0x80_0000,
                        step > 0,
                ;
            }
            assert(step * y == y * step) by (nonlinear_arith);
            lemma_pack_cut(
                sig as int,
                exp as int,
                inexact,
                s as nat,
                sh as nat,
                y as int,
                rem as int,
                up,
            );
        }
        let n0 = (s as u32) * HIDDEN_BIT + (y as u32);
        if up {
            n0 + 1
        } else {
            n0
        }
    }
}

} // verus!
