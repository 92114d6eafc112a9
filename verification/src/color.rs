//! The color engine: RGB colors with fixed-point channels, the piecewise
//! linear hue sweep ("rainbow"), and the stripe blending math, including the
//! fixed-point exponentiation used as a non-linear easing of the blend weight.

use vstd::prelude::*;

use crate::fixed_point::ColorV;
use crate::fixed_point::Extended;
use crate::fixed_point::Q24_ONE;
use crate::flag::ColorMethod;
use crate::flag::Flag;

verus! {

/// The decimal digits of a nonnegative number, as ASCII bytes.
pub open spec fn dec_bytes(n: int) -> Seq<u8>
    decreases n,
{
    if n < 0 {
        seq![]
    } else if n < 10 {
        seq![(0x30 + n) as u8]
    } else {
        dec_bytes(n / 10) + seq![(0x30 + n % 10) as u8]
    }
}

/// Appends the decimal representation of `n`.
pub fn push_dec(out: &mut Vec<u8>, n: u8)
    ensures
        final(out)@ == old(out)@ + dec_bytes(n as int),
{
    if n < 10 {
        out.push(0x30 + n);
        proof {
            assert(dec_bytes(n as int) =~= seq![(0x30 + n as int) as u8]);
            assert(out@ =~= old(out)@ + dec_bytes(n as int));
        }
    } else if n < 100 {
        out.push(0x30 + n / 10);
        out.push(0x30 + n % 10);
        proof {
            assert(dec_bytes(n as int / 10) =~= seq![(0x30 + n as int / 10) as u8]);
            assert(dec_bytes(n as int) =~= dec_bytes(n as int / 10) + seq![
                (0x30 + n as int % 10) as u8,
            ]);
            assert(out@ =~= old(out)@ + dec_bytes(n as int));
        }
    } else {
        out.push(0x30 + n / 100);
        out.push(0x30 + (n / 10) % 10);
        out.push(0x30 + n % 10);
        proof {
            vstd::arithmetic::div_mod::lemma_div_denominator(n as int, 10, 10);
            assert(dec_bytes(n as int / 100) =~= seq![(0x30 + n as int / 100) as u8]);
            assert(dec_bytes(n as int / 10) =~= dec_bytes(n as int / 100) + seq![
                (0x30 + (n as int / 10) % 10) as u8,
            ]);
            assert(dec_bytes(n as int) =~= dec_bytes(n as int / 10) + seq![
                (0x30 + n as int % 10) as u8,
            ]);
            assert(out@ =~= old(out)@ + dec_bytes(n as int));
        }
    }
}

/// An RGB color; each channel is a fixed-point value in [0, 1).
#[derive(Clone, Copy, Debug, PartialEq, Eq, Structural)]
pub struct Color {
    pub red: ColorV,
    pub green: ColorV,
    pub blue: ColorV,
}

/// The color encoded by a 24-bit 0xRRGGBB value: each 8-bit component becomes
/// the top 8 bits of its channel.
pub open spec fn color_of_hex(hex: int) -> Color {
    Color {
        red: ColorV { bits: (((hex / 0x1_0000) % 0x100) * 0x100_0000) as u32 },
        green: ColorV { bits: (((hex / 0x100) % 0x100) * 0x100_0000) as u32 },
        blue: ColorV { bits: ((hex % 0x100) * 0x100_0000) as u32 },
    }
}

/// Saturating narrowing from `Extended` to a channel value: values >= 1.0
/// clamp to the largest representable channel, smaller values keep all 24
/// fractional bits.
pub open spec fn trunc_spec(v: int) -> int {
    if v >= Q24_ONE {
        0xffff_ffff
    } else {
        v * 256
    }
}

pub fn trunc(v: Extended) -> (r: ColorV)
    ensures
        r.bits == trunc_spec(v.bits as int),
{
    if v.bits >= Q24_ONE {
        ColorV::max()
    } else {
        ColorV::from_bits(v.bits * 256)
    }
}

/// Multiplication of two Q8.24 values, truncating to 24 fractional bits.
pub open spec fn mul_q24_spec(a: int, b: int) -> int {
    (a * b) / (Q24_ONE as int)
}

/// The integer square root: the unique r with r^2 <= v < (r+1)^2.
pub open spec fn is_isqrt(v: int, r: int) -> bool {
    &&& 0 <= r
    &&& r * r <= v
    &&& v < (r + 1) * (r + 1)
}

/// A constructive definition of the integer square root, by halving the
/// argument's bits: isqrt(v) is 2*isqrt(v/4), possibly plus one.
pub open spec fn isqrt_spec(v: nat) -> nat
    decreases v,
{
    if v == 0 {
        0
    } else {
        let r = 2 * isqrt_spec((v / 4) as nat);
        if (r + 1) * (r + 1) <= v {
            (r + 1) as nat
        } else {
            r
        }
    }
}

pub proof fn lemma_isqrt_spec_correct(v: nat)
    ensures
        is_isqrt(v as int, isqrt_spec(v) as int),
    decreases v,
{
    if v == 0 {
    } else {
        let q = (v / 4) as nat;
        lemma_isqrt_spec_correct(q);
        let r0 = isqrt_spec(q) as int;
        let r = 2 * r0;
        assert(r * r == 4 * (r0 * r0)) by (nonlinear_arith)
            requires
                r == 2 * r0,
        ;
        assert(4 * (v / 4) <= v);
        assert(v == 4 * (v as int / 4) + v as int % 4) by {
            vstd::arithmetic::div_mod::lemma_fundamental_div_mod(v as int, 4);
        }
        assert(r * r <= v) by {
            assert(r0 * r0 <= q);
            assert(4 * (r0 * r0) <= 4 * q) by (nonlinear_arith)
                requires
                    r0 * r0 <= q,
            ;
            assert(4 * q <= v);
        }
        assert(v < (r + 2) * (r + 2)) by {
            assert(q < (r0 + 1) * (r0 + 1));
            assert(q + 1 <= (r0 + 1) * (r0 + 1));
            assert(v as int % 4 < 4) by {
                vstd::arithmetic::div_mod::lemma_mod_bound(v as int, 4);
            }
            assert(v <= 4 * q + 3);
            assert(4 * (q + 1) <= 4 * ((r0 + 1) * (r0 + 1))) by (nonlinear_arith)
                requires
                    q + 1 <= (r0 + 1) * (r0 + 1),
            ;
            assert((r + 2) * (r + 2) == 4 * ((r0 + 1) * (r0 + 1))) by (nonlinear_arith)
                requires
                    r == 2 * r0,
            ;
        }
    }
}

pub proof fn lemma_isqrt_unique(v: int, r1: int, r2: int)
    requires
        is_isqrt(v, r1),
        is_isqrt(v, r2),
    ensures
        r1 == r2,
{
    if r1 < r2 {
        assert((r1 + 1) * (r1 + 1) <= r2 * r2) by (nonlinear_arith)
            requires
                0 <= r1,
                r1 + 1 <= r2,
        ;
    }
    if r2 < r1 {
        assert((r2 + 1) * (r2 + 1) <= r1 * r1) by (nonlinear_arith)
            requires
                0 <= r2,
                r2 + 1 <= r1,
        ;
    }
}

/// The integer square root of a value of at most 2^48, by binary search.
pub fn isqrt48(v: u64) -> (r: u32)
    requires
        v <= 0x1_0000_0000_0000,
    ensures
        r == isqrt_spec(v as nat),
        is_isqrt(v as int, r as int),
{
    let mut lo: u32 = 0;
    let mut hi: u32 = 0x100_0000;
    proof {
        assert((hi + 1) * (hi + 1) > 0x1_0000_0000_0000) by (nonlinear_arith)
            requires
                hi == 0x100_0000,
        ;
    }
    while lo < hi
        invariant
            lo <= hi <= 0x100_0000,
            (lo as int) * (lo as int) <= v as int,
            (v as int) < ((hi + 1) as int) * ((hi + 1) as int),
        decreases hi - lo,
    {
        proof {
            assert(lo + (hi - lo + 1) / 2 <= hi);
        }
        let mid: u32 = lo + (hi - lo + 1) / 2;
        proof {
            assert((mid as int) * (mid as int) <= 0x1_0000_0000_0000) by (nonlinear_arith)
                requires
                    0 <= mid <= 0x100_0000,
            ;
        }
        let sq: u64 = (mid as u64) * (mid as u64);
        if sq <= v {
            lo = mid;
        } else {
            hi = mid - 1;
        }
    }
    proof {
        lemma_isqrt_spec_correct(v as nat);
        lemma_isqrt_unique(v as int, lo as int, isqrt_spec(v as nat) as int);
    }
    lo
}

/// The square root of a Q8.24 value, truncated to 24 fractional bits.
pub open spec fn sqrt_q24_spec(x: int) -> int {
    isqrt_spec((x * 0x100_0000) as nat) as int
}

pub proof fn lemma_sqrt_q24_le_one(x: int)
    requires
        0 <= x <= Q24_ONE,
    ensures
        0 <= sqrt_q24_spec(x) <= Q24_ONE,
        x == Q24_ONE ==> sqrt_q24_spec(x) == Q24_ONE,
{
    let v = (x * 0x100_0000) as nat;
    lemma_isqrt_spec_correct(v);
    let r = isqrt_spec(v) as int;
    assert(v <= 0x1_0000_0000_0000);
    if r > Q24_ONE {
        assert(r * r > 0x1_0000_0000_0000) by (nonlinear_arith)
            requires
                r > 0x100_0000,
        ;
    }
    if x == Q24_ONE {
        assert(v == 0x1_0000_0000_0000);
        assert(is_isqrt(v as int, 0x100_0000)) by (nonlinear_arith)
            requires
                v == 0x1_0000_0000_0000,
        ;
        lemma_isqrt_unique(v as int, r, 0x100_0000);
    }
}

pub fn sqrt_q24(x: Extended) -> (r: Extended)
    requires
        x.bits <= Q24_ONE,
    ensures
        r.bits == sqrt_q24_spec(x.bits as int),
        r.bits <= Q24_ONE,
{
    let v: u64 = (x.bits as u64) * 0x100_0000;
    let s = isqrt48(v);
    proof {
        lemma_sqrt_q24_le_one(x.bits as int);
    }
    Extended::from_bits(s)
}

/// Q8.24 multiplication of values at most 1.0; the product stays at most 1.0.
pub fn mul_q24(a: Extended, b: Extended) -> (r: Extended)
    requires
        a.bits <= Q24_ONE,
        b.bits <= Q24_ONE,
    ensures
        r.bits == mul_q24_spec(a.bits as int, b.bits as int),
        r.bits <= Q24_ONE,
{
    proof {
        assert((a.bits as int) * (b.bits as int) <= 0x1_0000_0000_0000) by (nonlinear_arith)
            requires
                a.bits <= 0x100_0000,
                b.bits <= 0x100_0000,
        ;
    }
    let p: u64 = (a.bits as u64) * (b.bits as u64);
    proof {
        vstd::arithmetic::div_mod::lemma_div_is_ordered(
            p as int,
            0x1_0000_0000_0000,
            Q24_ONE as int,
        );
    }
    Extended::from_bits((p / (Q24_ONE as u64)) as u32)
}

/// `b` raised to the integer power `n`, accumulating in Q8.24 left to right.
pub open spec fn pow_int_q24_spec(b: int, n: nat) -> int
    decreases n,
{
    if n == 0 {
        Q24_ONE as int
    } else {
        mul_q24_spec(pow_int_q24_spec(b, (n - 1) as nat), b)
    }
}

/// The fractional-exponent part of the fixed-point power: `cur` holds
/// b^(1/2^k) for the current bit weight `p` = 2^(23-k); each step takes one
/// more square root and multiplies it into `acc` when the corresponding bit
/// of the fractional exponent `f` is set.
pub open spec fn pow_frac_q24_spec(acc: int, cur: int, f: int, p: int) -> int
    decreases p,
{
    if p <= 0 {
        acc
    } else {
        let nc = sqrt_q24_spec(cur);
        let nacc = if (f / p) % 2 == 1 {
            mul_q24_spec(acc, nc)
        } else {
            acc
        };
        pow_frac_q24_spec(nacc, nc, f, p / 2)
    }
}

/// Fixed-point exponentiation `b ^ f` for a base in [0, 1] and a nonnegative
/// Q8.24 exponent: the integer part of the exponent by repeated
/// multiplication, the fractional part bit by bit via square roots.
pub open spec fn pow_q24_spec(b: int, f: int) -> int {
    mul_q24_spec(
        pow_int_q24_spec(b, (f / (Q24_ONE as int)) as nat),
        pow_frac_q24_spec(Q24_ONE as int, b, f % (Q24_ONE as int), 0x80_0000),
    )
}

proof fn lemma_pow_int_le_one(b: int, n: nat)
    requires
        0 <= b <= Q24_ONE,
    ensures
        0 <= pow_int_q24_spec(b, n) <= Q24_ONE,
    decreases n,
{
    if n > 0 {
        lemma_pow_int_le_one(b, (n - 1) as nat);
        let a = pow_int_q24_spec(b, (n - 1) as nat);
        assert(0 <= (a * b) / 0x100_0000 <= 0x100_0000) by (nonlinear_arith)
            requires
                0 <= a <= 0x100_0000,
                0 <= b <= 0x100_0000,
        ;
    }
}

proof fn lemma_pow_frac_le_one(acc: int, cur: int, f: int, p: int)
    requires
        0 <= acc <= Q24_ONE,
        0 <= cur <= Q24_ONE,
    ensures
        0 <= pow_frac_q24_spec(acc, cur, f, p) <= Q24_ONE,
    decreases p,
{
    if p > 0 {
        let nc = sqrt_q24_spec(cur);
        lemma_sqrt_q24_le_one(cur);
        let nacc = if (f / p) % 2 == 1 {
            mul_q24_spec(acc, nc)
        } else {
            acc
        };
        assert(0 <= mul_q24_spec(acc, nc) <= Q24_ONE) by (nonlinear_arith)
            requires
                0 <= acc <= 0x100_0000,
                0 <= nc <= 0x100_0000,
        ;
        lemma_pow_frac_le_one(nacc, nc, f, p / 2);
    }
}

pub proof fn lemma_pow_q24_le_one(b: int, f: int)
    requires
        0 <= b <= Q24_ONE,
        0 <= f,
    ensures
        0 <= pow_q24_spec(b, f) <= Q24_ONE,
{
    let n = (f / (Q24_ONE as int)) as nat;
    let fr = f % (Q24_ONE as int);
    lemma_pow_int_le_one(b, n);
    lemma_pow_frac_le_one(Q24_ONE as int, b, fr, 0x80_0000);
    let x = pow_int_q24_spec(b, n);
    let y = pow_frac_q24_spec(Q24_ONE as int, b, fr, 0x80_0000);
    assert(0 <= (x * y) / 0x100_0000 <= 0x100_0000) by (nonlinear_arith)
        requires
            0 <= x <= 0x100_0000,
            0 <= y <= 0x100_0000,
    ;
}

/// A power of the full weight 1.0 is exactly 1.0, whatever the exponent.
pub proof fn lemma_pow_q24_one_base(f: int)
    requires
        0 <= f,
    ensures
        pow_q24_spec(Q24_ONE as int, f) == Q24_ONE,
{
    let one = Q24_ONE as int;
    assert(mul_q24_spec(one, one) == one);
    lemma_pow_int_one_base((f / one) as nat);
    lemma_pow_frac_one_base(one, f % one, 0x80_0000);
}

proof fn lemma_pow_int_one_base(n: nat)
    ensures
        pow_int_q24_spec(Q24_ONE as int, n) == Q24_ONE,
    decreases n,
{
    if n > 0 {
        lemma_pow_int_one_base((n - 1) as nat);
    }
}

proof fn lemma_pow_frac_one_base(acc: int, f: int, p: int)
    requires
        acc == Q24_ONE,
    ensures
        pow_frac_q24_spec(acc, Q24_ONE as int, f, p) == Q24_ONE,
    decreases p,
{
    if p > 0 {
        lemma_sqrt_q24_le_one(Q24_ONE as int);
        lemma_pow_frac_one_base(Q24_ONE as int, f, p / 2);
    }
}

pub fn pow_q24(b: Extended, f: Extended) -> (r: Extended)
    requires
        b.bits <= Q24_ONE,
    ensures
        r.bits == pow_q24_spec(b.bits as int, f.bits as int),
        r.bits <= Q24_ONE,
{
    let n: u32 = f.bits / Q24_ONE;
    let fr: u32 = f.bits % Q24_ONE;

    let mut acc = Extended::one();
    let mut i: u32 = 0;
    while i < n
        invariant
            i <= n,
            b.bits <= Q24_ONE,
            acc.bits == pow_int_q24_spec(b.bits as int, i as nat),
            acc.bits <= Q24_ONE,
        decreases n - i,
    {
        acc = mul_q24(acc, b);
        i = i + 1;
    }

    let mut frac_acc = Extended::one();
    let mut cur = b;
    let mut p: u32 = 0x80_0000;
    while p > 0
        invariant
            b.bits <= Q24_ONE,
            frac_acc.bits <= Q24_ONE,
            cur.bits <= Q24_ONE,
            pow_frac_q24_spec(frac_acc.bits as int, cur.bits as int, fr as int, p as int)
                == pow_frac_q24_spec(Q24_ONE as int, b.bits as int, fr as int, 0x80_0000),
        decreases p,
    {
        cur = sqrt_q24(cur);
        if (fr / p) % 2 == 1 {
            frac_acc = mul_q24(frac_acc, cur);
        }
        p = p / 2;
    }

    mul_q24(acc, frac_acc)
}

/// The easing threshold: an eased blend weight below 0.0625 collapses the
/// blend to the second color outright.
pub const SMALL_BALANCE_THRESHOLD: u32 = 0x10_0000;

/// Exact linear interpolation of one channel with a Q8.24 weight `w` in
/// [0, 1]: `first * w + other * (1 - w)`, truncated to the channel precision.
pub open spec fn lerp_spec(first: int, other: int, w: int) -> int {
    (first * w + other * (Q24_ONE - w)) / (Q24_ONE as int)
}

/// One channel of the blend: the second color when the eased weight is below
/// the threshold, otherwise the exact interpolation.
pub open spec fn mix_field_spec(first: int, other: int, eased: int) -> int {
    if eased < SMALL_BALANCE_THRESHOLD {
        other
    } else {
        lerp_spec(first, other, eased)
    }
}

pub fn mix_field(first: ColorV, other: ColorV, eased: Extended) -> (r: ColorV)
    requires
        eased.bits <= Q24_ONE,
    ensures
        r.bits == mix_field_spec(first.bits as int, other.bits as int, eased.bits as int),
{
    if eased.bits < SMALL_BALANCE_THRESHOLD {
        return other;
    }
    let w: u64 = eased.bits as u64;
    let cw: u64 = (Q24_ONE - eased.bits) as u64;
    proof {
        assert((first.bits as int) * (w as int) + (other.bits as int) * (cw as int) <= 0xffff_ffff
            * 0x100_0000) by (nonlinear_arith)
            requires
                first.bits <= 0xffff_ffff,
                other.bits <= 0xffff_ffff,
                0 <= w,
                0 <= cw,
                w + cw == 0x100_0000,
        ;
    }
    let num: u64 = (first.bits as u64) * w + (other.bits as u64) * cw;
    proof {
        vstd::arithmetic::div_mod::lemma_div_is_ordered(
            num as int,
            0xffff_ffff as int * 0x100_0000 as int,
            Q24_ONE as int,
        );
    }
    ColorV::from_bits((num / (Q24_ONE as u64)) as u32)
}

/// The blend of two colors: the blend weight `balance` in [0, 1] is eased by
/// raising it to the power `factor`, then each channel is interpolated (or,
/// below the threshold, the second color is returned unmixed).
pub open spec fn mix_spec(a: Color, b: Color, balance: int, factor: int) -> Color {
    let e = pow_q24_spec(balance, factor);
    Color {
        red: ColorV { bits: mix_field_spec(a.red.bits as int, b.red.bits as int, e) as u32 },
        green: ColorV { bits: mix_field_spec(a.green.bits as int, b.green.bits as int, e) as u32 },
        blue: ColorV { bits: mix_field_spec(a.blue.bits as int, b.blue.bits as int, e) as u32 },
    }
}

impl Color {
    pub fn new(r: ColorV, g: ColorV, b: ColorV) -> (c: Self)
        ensures
            c == (Color { red: r, green: g, blue: b }),
    {
        Color { red: r, green: g, blue: b }
    }

    pub fn red(&self) -> (r: ColorV)
        ensures
            r == self.red,
    {
        self.red
    }

    pub fn green(&self) -> (r: ColorV)
        ensures
            r == self.green,
    {
        self.green
    }

    pub fn blue(&self) -> (r: ColorV)
        ensures
            r == self.blue,
    {
        self.blue
    }

    /// The color encoded by a 24-bit 0xRRGGBB value (see [`color_of_hex`]).
    pub fn from_hex(hex: u32) -> (c: Self)
        ensures
            c == color_of_hex(hex as int),
    {
        let r = ((hex / 0x1_0000) % 0x100) * 0x100_0000;
        let g = ((hex / 0x100) % 0x100) * 0x100_0000;
        let b = (hex % 0x100) * 0x100_0000;
        Color { red: ColorV::from_bits(r), green: ColorV::from_bits(g), blue: ColorV::from_bits(b) }
    }

    fn from_ext(r: Extended, g: Extended, b: Extended) -> (c: Self)
        ensures
            c.red.bits == trunc_spec(r.bits as int),
            c.green.bits == trunc_spec(g.bits as int),
            c.blue.bits == trunc_spec(b.bits as int),
    {
        Color { red: trunc(r), green: trunc(g), blue: trunc(b) }
    }

    /// The blend of `self` toward `other` with weight `balance` eased by
    /// `factor` (see [`mix_spec`]).
    pub fn mix(self, other: Color, balance: Extended, factor: Extended) -> (r: Color)
        requires
            balance.bits <= Q24_ONE,
        ensures
            r == mix_spec(self, other, balance.bits as int, factor.bits as int),
    {
        let eased = pow_q24(balance, factor);
        let red = mix_field(self.red, other.red, eased);
        let green = mix_field(self.green, other.green, eased);
        let blue = mix_field(self.blue, other.blue, eased);
        Color { red, green, blue }
    }
}

/// The channels of the continuous hue sweep at position `theta`, before
/// saturation: the six-sector piecewise-linear table over `f = theta * 6`.
pub open spec fn rainbow_channels_spec(theta: ColorV) -> (int, int, int) {
    let one = Q24_ONE as int;
    let f = (theta.bits as int / 256) * 6;
    let sector = f / one;
    if sector == 0 {
        (one, f, 0)
    } else if sector == 1 {
        (2 * one - f, one, 0)
    } else if sector == 2 {
        (0, one, f - 2 * one)
    } else if sector == 3 {
        (0, 4 * one - f, one)
    } else if sector == 4 {
        (f - 4 * one, 0, one)
    } else {
        (one, 0, 6 * one - f)
    }
}

/// The color of the continuous hue sweep at position `theta`: the piecewise
/// channels, each saturated into [0, 1).
pub open spec fn rainbow_spec(theta: ColorV) -> Color {
    let chans = rainbow_channels_spec(theta);
    Color {
        red: ColorV { bits: trunc_spec(chans.0) as u32 },
        green: ColorV { bits: trunc_spec(chans.1) as u32 },
        blue: ColorV { bits: trunc_spec(chans.2) as u32 },
    }
}

impl Color {
    /// The continuous hue sweep (an approximation of HSV with full
    /// saturation and value) at sweep position `theta`.
    pub fn rainbow(theta: ColorV) -> (c: Self)
        ensures
            c == rainbow_spec(theta),
    {
        let one = Q24_ONE;
        let t24: u32 = theta.bits / 256;
        let f: u32 = t24 * 6;
        let sector: u32 = f / one;
        let zero_e = Extended::zero();
        let one_e = Extended::one();
        let f_e = Extended::from_bits(f);
        if sector == 0 {
            Color::from_ext(one_e, f_e, zero_e)
        } else if sector == 1 {
            Color::from_ext(Extended::from_bits(2 * one - f), one_e, zero_e)
        } else if sector == 2 {
            Color::from_ext(zero_e, one_e, Extended::from_bits(f - 2 * one))
        } else if sector == 3 {
            Color::from_ext(zero_e, Extended::from_bits(4 * one - f), one_e)
        } else if sector == 4 {
            Color::from_ext(Extended::from_bits(f - 4 * one), zero_e, one_e)
        } else {
            Color::from_ext(one_e, zero_e, Extended::from_bits(6 * one - f))
        }
    }
}

proof fn lemma_lerp_full_weight(c: int)
    requires
        0 <= c,
    ensures
        forall |o: int| lerp_spec(c, o, Q24_ONE as int) == c,
{
    assert forall |o: int| lerp_spec(c, o, Q24_ONE as int) == c by {
        assert(c * (Q24_ONE as int) + o * 0 == c * 0x100_0000);
        assert((c * 0x100_0000) / 0x100_0000 == c) by {
            vstd::arithmetic::div_mod::lemma_div_by_multiple(c, 0x100_0000);
        }
    }
}

/// The stripe interpolation color at sweep position `theta` over `stripes`:
/// the position scaled by the stripe count selects a stripe and the fraction
/// into it; the stripe is blended toward the (cyclically) next one with a
/// weight that starts at 1.0 on the stripe's leading edge and falls linearly.
pub open spec fn stripe_spec(theta: ColorV, stripes: Seq<Color>, factor: int) -> Color {
    let one = Q24_ONE as int;
    let n = stripes.len() as int;
    let ifl = n * (theta.bits as int / 256);
    let i = ifl / one;
    let balance = one - (ifl % one);
    let next = if i + 1 == n {
        0
    } else {
        i + 1
    };
    mix_spec(stripes[i], stripes[next], balance, factor)
}

impl Color {
    /// The stripe interpolation color at sweep position `theta` for a
    /// stripe-mode flag (see [`stripe_spec`]).
    pub fn stripe(theta: ColorV, flag: &Flag) -> (r: Color)
        requires
            flag.wf(),
            flag.color_method == ColorMethod::Stripes,
        ensures
            r == stripe_spec(theta, flag.stripe_colors@, flag.factor.bits as int),
    {
        let n: usize = flag.stripe_colors.len();
        let t24: u32 = theta.bits / 256;
        proof {
            assert((n as int) * (t24 as int) < (n as int) * 0x100_0000) by (nonlinear_arith)
                requires
                    1 <= n,
                    t24 < 0x100_0000,
            ;
            assert((n as int) * 0x100_0000 <= 255 * 0x100_0000) by (nonlinear_arith)
                requires
                    n <= 255,
            ;
        }
        let ifl: u32 = (n as u32) * t24;
        let i: usize = (ifl / Q24_ONE) as usize;
        proof {
            assert(ifl as int / (Q24_ONE as int) < n as int) by (nonlinear_arith)
                requires
                    0 <= ifl,
                    (ifl as int) < (n as int) * 0x100_0000,
            ;
        }
        let frac: u32 = ifl % Q24_ONE;
        let balance = Extended::from_bits(Q24_ONE - frac);
        let first = flag.stripe_colors[i];
        let next_i: usize = if i + 1 == n {
            0
        } else {
            i + 1
        };
        let next = flag.stripe_colors[next_i];
        first.mix(next, balance, flag.factor)
    }
}

/// The blend at full weight keeps the first color exactly, whatever the
/// easing factor: 1.0 eased by any exponent is 1.0, and interpolation with
/// weight 1.0 is exact.
pub proof fn lemma_blend_full_balance(a: Color, b: Color, factor: int)
    requires
        0 <= factor,
    ensures
        mix_spec(a, b, Q24_ONE as int, factor) == a,
{
    lemma_pow_q24_one_base(factor);
    let one = Q24_ONE as int;
    lemma_lerp_full_weight(a.red.bits as int);
    lemma_lerp_full_weight(a.green.bits as int);
    lemma_lerp_full_weight(a.blue.bits as int);
    assert(lerp_spec(a.red.bits as int, b.red.bits as int, one) == a.red.bits);
    assert(lerp_spec(a.green.bits as int, b.green.bits as int, one) == a.green.bits);
    assert(lerp_spec(a.blue.bits as int, b.blue.bits as int, one) == a.blue.bits);
}

/// A blend whose eased weight falls below the threshold is the second color
/// exactly.
pub proof fn lemma_blend_cutoff(a: Color, b: Color, balance: int, factor: int)
    requires
        pow_q24_spec(balance, factor) < SMALL_BALANCE_THRESHOLD,
    ensures
        mix_spec(a, b, balance, factor) == b,
{
}

} // verus!
