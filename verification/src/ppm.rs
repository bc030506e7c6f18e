//! The image as text: the plain PPM format, with whole numbers in decimal.

use vstd::prelude::*;
use vstd::arithmetic::div_mod::*;
use crate::vec3f::Vec3f32;

verus! {

/// A pixel as it is written: three whole numbers. Nothing holds them to the
/// range from 0 to 255; a colour brighter than white gives more.
#[derive(Clone, Copy, Debug, PartialEq, Eq, Structural)]
pub struct Pixel {
    pub r: i32,
    pub g: i32,
    pub b: i32,
}

/// The decimal digits of `n` in ASCII, the most significant first.
pub open spec fn digits_spec(n: nat) -> Seq<u8>
    decreases n,
{
    if n < 10 {
        seq![(48 + n) as u8]
    } else {
        digits_spec(n / 10).push((48 + n % 10) as u8)
    }
}

/// The whole number `v` in decimal, with a minus sign if it is negative.
pub open spec fn int_text_spec(v: int) -> Seq<u8> {
    if v < 0 {
        seq![45u8] + digits_spec((-v) as nat)
    } else {
        digits_spec(v as nat)
    }
}

/// The line of a pixel: its three numbers with a space between them, and a
/// line feed.
pub open spec fn pixel_line_spec(p: Pixel) -> Seq<u8> {
    int_text_spec(p.r as int) + seq![32u8] + int_text_spec(p.g as int) + seq![32u8]
        + int_text_spec(p.b as int) + seq![10u8]
}

/// The header: the line that names the plain format (the letter P and the
/// digit 3), the line of the width and the height, and the line `255`, the
/// largest value of a channel.
pub open spec fn header_spec(nx: u32, ny: u32) -> Seq<u8> {
    seq![80u8, 51u8, 10u8] + digits_spec(nx as nat) + seq![32u8] + digits_spec(ny as nat)
        + seq![10u8, 50u8, 53u8, 53u8, 10u8]
}

/// The lines of the first `n` pixels.
pub open spec fn body_spec(pixels: Seq<Pixel>, n: nat) -> Seq<u8>
    decreases n,
{
    if n == 0 || n > pixels.len() {
        Seq::empty()
    } else {
        body_spec(pixels, (n - 1) as nat) + pixel_line_spec(pixels[n - 1])
    }
}

/// The whole image as text: the header, then one line for each pixel in the
/// order given.
pub open spec fn ppm_spec(nx: u32, ny: u32, pixels: Seq<Pixel>) -> Seq<u8> {
    header_spec(nx, ny) + body_spec(pixels, pixels.len())
}

/// Ten to the power `k`.
pub open spec fn pow10(k: nat) -> nat
    decreases k,
{
    if k == 0 {
        1
    } else {
        10 * pow10((k - 1) as nat)
    }
}

/// The digits that stand before the last `k` digits of `n`, or nothing if
/// there are none.
pub open spec fn leading_digits(n: nat, k: nat) -> Seq<u8> {
    if n / pow10(k) == 0 {
        Seq::empty()
    } else {
        digits_spec(n / pow10(k))
    }
}

proof fn lemma_pow10_positive(k: nat)
    ensures
        pow10(k) > 0,
    decreases k,
{
    if k > 0 {
        lemma_pow10_positive((k - 1) as nat);
    }
}

/// One more digit: the digits before the last `k` are the digits before the
/// last `k + 1`, and the digit at place `k`.
proof fn lemma_next_digit(n: nat, k: nat)
    requires
        k == 0 || n / pow10(k) > 0,
    ensures
        leading_digits(n, k + 1).push((48 + (n / pow10(k)) % 10) as u8) == if k == 0 {
            digits_spec(n)
        } else {
            leading_digits(n, k)
        },
{
    let p = pow10(k) as int;
    lemma_pow10_positive(k);
    lemma_div_denominator(n as int, p, 10);
    assert(pow10(k + 1) == p * 10);
    let x = n / pow10(k);
    assert(n / pow10(k + 1) == x / 10);
    assert(pow10(0) == 1);
    let pushed = leading_digits(n, k + 1).push((48 + x % 10) as u8);
    if x < 10 {
        assert(x / 10 == 0);
        assert(pushed =~= seq![(48 + x) as u8]);
        assert(digits_spec(x) == seq![(48 + x) as u8]);
    } else {
        assert(x / 10 != 0);
        assert(digits_spec(x) == digits_spec(x / 10).push((48 + x % 10) as u8));
    }
    assert(pushed == digits_spec(x));
    if k == 0 {
        assert(pow10(k) == 1);
        assert(n as int / 1 == n);
        assert(x == n);
    }
}

/// Appends the decimal digits of `n`.
pub fn push_decimal(out: &mut Vec<u8>, n: u32)
    ensures
        final(out)@ == old(out)@ + digits_spec(n as nat),
{
    let mut p: u64 = 1;
    let ghost mut k: nat = 0;
    while n as u64 / p >= 10
        invariant
            p == pow10(k),
            0 < p <= n || p == 1,
        decreases n - p,
    {
        proof {
            lemma_fundamental_div_mod(n as int, p as int);
            assert(10 * p <= n) by (nonlinear_arith)
                requires
                    n == p * (n as int / p as int) + (n as int % p as int),
                    n as int / p as int >= 10,
                    n as int % p as int >= 0,
                    p > 0,
            ;
            k = k + 1;
        }
        p = p * 10;
    }
    let ghost before = out@;
    proof {
        if k > 0 {
            lemma_pow10_positive((k - 1) as nat);
            lemma_fundamental_div_mod(n as int, p as int);
            lemma_mod_bound(n as int, p as int);
            if n as int / p as int <= 0 {
                assert(p * (n as int / p as int) <= 0) by (nonlinear_arith)
                    requires
                        n as int / p as int <= 0,
                        p > 0,
                ;
            }
        }
        lemma_pow10_positive(k + 1);
        lemma_div_denominator(n as int, p as int, 10);
        assert(pow10(k + 1) == p * 10);
        assert(n as nat / pow10(k + 1) == 0);
        assert(out@ =~= before + leading_digits(n as nat, k + 1));
    }
    loop
        invariant_except_break
            p == pow10(k),
            p > 0,
            k == 0 || n as nat / pow10(k) > 0,
            out@ == before + leading_digits(n as nat, k + 1),
        ensures
            out@ == before + digits_spec(n as nat),
        decreases k,
    {
        let d = (n as u64 / p) % 10;
        proof {
            lemma_next_digit(n as nat, k);
            assert((before + leading_digits(n as nat, k + 1)).push((48 + d) as u8) =~= before
                + leading_digits(n as nat, k + 1).push((48 + d) as u8));
        }
        out.push((48 + d) as u8);
        if p == 1 {
            proof {
                assert(k == 0) by {
                    if k > 0 {
                        lemma_pow10_positive((k - 1) as nat);
                    }
                }
            }
            break ;
        }
        proof {
            assert(k > 0);
            lemma_pow10_positive((k - 1) as nat);
            lemma_fundamental_div_mod(n as int, p as int);
            lemma_pow10_positive(k);
            assert(p * (n as int / p as int) <= n) by (nonlinear_arith)
                requires
                    n == p * (n as int / p as int) + (n as int % p as int),
                    n as int % p as int >= 0,
            ;
            assert(n as nat / pow10((k - 1) as nat) > 0) by {
                let q = pow10((k - 1) as nat) as int;
                lemma_fundamental_div_mod(n as int, q);
                lemma_mod_bound(n as int, q);
                assert(q <= p);
                assert(n as int / p as int >= 1);
                assert(p <= n) by (nonlinear_arith)
                    requires
                        p * (n as int / p as int) <= n,
                        n as int / p as int >= 1,
                        p > 0,
                ;
                if n as int / q <= 0 {
                    assert(q * (n as int / q) <= 0) by (nonlinear_arith)
                        requires
                            n as int / q <= 0,
                            q > 0,
                    ;
                }
            }
            k = (k - 1) as nat;
        }
        p = p / 10;
    }
}

/// Appends the whole number `v` in decimal.
pub fn push_int(out: &mut Vec<u8>, v: i32)
    ensures
        final(out)@ == old(out)@ + int_text_spec(v as int),
{
    let ghost before = out@;
    if v < 0 {
        out.push(45u8);
        let magnitude = (-(v as i64)) as u32;
        push_decimal(out, magnitude);
        assert(out@ =~= before + (seq![45u8] + digits_spec((-v) as nat)));
    } else {
        push_decimal(out, v as u32);
    }
}

/// Appends the line of a pixel.
pub fn push_pixel_line(out: &mut Vec<u8>, p: &Pixel)
    ensures
        final(out)@ == old(out)@ + pixel_line_spec(*p),
{
    let ghost before = out@;
    push_int(out, p.r);
    out.push(32u8);
    push_int(out, p.g);
    out.push(32u8);
    push_int(out, p.b);
    out.push(10u8);
    assert(out@ =~= before + pixel_line_spec(*p));
}

/// Appends the header of an image `nx` wide and `ny` high.
pub fn push_header(out: &mut Vec<u8>, nx: u32, ny: u32)
    ensures
        final(out)@ == old(out)@ + header_spec(nx, ny),
{
    let ghost before = out@;
    out.push(80u8);
    out.push(51u8);
    out.push(10u8);
    push_decimal(out, nx);
    out.push(32u8);
    push_decimal(out, ny);
    out.push(10u8);
    out.push(50u8);
    out.push(53u8);
    out.push(53u8);
    out.push(10u8);
    assert(out@ =~= before + header_spec(nx, ny));
}

/// The whole image as text: the header, then one line for each pixel in the
/// order given, which is row by row from the top.
pub fn ppm_text(nx: u32, ny: u32, pixels: &Vec<Pixel>) -> (text: Vec<u8>)
    ensures
        text@ == ppm_spec(nx, ny, pixels@),
{
    let mut text: Vec<u8> = Vec::new();
    push_header(&mut text, nx, ny);
    let mut i: usize = 0;
    assert(text@ =~= header_spec(nx, ny) + body_spec(pixels@, 0));
    while i < pixels.len()
        invariant
            i <= pixels@.len(),
            text@ == header_spec(nx, ny) + body_spec(pixels@, i as nat),
        decreases pixels@.len() - i,
    {
        let ghost before = text@;
        push_pixel_line(&mut text, &pixels[i]);
        i = i + 1;
        assert(text@ =~= header_spec(nx, ny) + body_spec(pixels@, i as nat));
    }
    text
}

impl Vec3f32 {
    /// The vector as a pixel: each component cut off towards zero.
    pub open spec fn spec_as_pixel(self) -> Pixel {
        Pixel {
            r: self.x.spec_to_i32() as i32,
            g: self.y.spec_to_i32() as i32,
            b: self.z.spec_to_i32() as i32,
        }
    }

    /// The vector as a pixel: each component cut off towards zero.
    pub fn as_pixel(&self) -> (p: Pixel)
        ensures
            p == self.spec_as_pixel(),
    {
        Pixel { r: self.x.to_i32(), g: self.y.to_i32(), b: self.z.to_i32() }
    }

    /// Appends the vector's line to the text `out`: its three components
    /// cut off towards zero, in decimal, with a space between them, and a
    /// line feed.
    pub fn write_vec_as_int(&self, out: &mut Vec<u8>)
        ensures
            final(out)@ == old(out)@ + pixel_line_spec(self.spec_as_pixel()),
    {
        let p = self.as_pixel();
        push_pixel_line(out, &p);
    }
}

} // verus!
