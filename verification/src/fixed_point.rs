//! Fixed-point numeric types backing the color engine.
//!
//! `ColorV` is a value in [0, 1) stored as 32 fractional bits (the stored
//! `bits` represent `bits / 2^32`); all of its arithmetic wraps at 1.0, which
//! makes it suitable for the sweep position ("theta") and for individual RGB
//! channels. `Extended` is a value in [0, 256) stored as 8 integer and 24
//! fractional bits (`bits / 2^24`); it is wide enough to hold small integers
//! and intermediate products of the color computations.

use vstd::prelude::*;

verus! {

/// 2^32, the denominator of `ColorV` and the wraparound modulus.
pub const WRAP32: u64 = 0x1_0000_0000;

/// 1.0 in the `Extended` (Q8.24) representation.
pub const Q24_ONE: u32 = 0x0100_0000;

/// A fixed-point value in [0, 1) with wraparound (modular) arithmetic.
#[derive(Clone, Copy, Debug, PartialEq, Eq, Structural)]
pub struct ColorV {
    /// The represented value is `bits / 2^32`.
    pub bits: u32,
}

/// A fixed-point value in [0, 256) with 24 fractional bits.
#[derive(Clone, Copy, Debug, PartialEq, Eq, Structural)]
pub struct Extended {
    /// The represented value is `bits / 2^24`.
    pub bits: u32,
}

impl ColorV {
    pub fn zero() -> (r: Self)
        ensures
            r.bits == 0,
    {
        ColorV { bits: 0 }
    }

    pub fn max() -> (r: Self)
        ensures
            r.bits == 0xffff_ffffu32,
    {
        ColorV { bits: 0xffff_ffffu32 }
    }

    pub fn from_bits(bits: u32) -> (r: Self)
        ensures
            r.bits == bits,
    {
        ColorV { bits }
    }

    /// Modular addition: the value wraps at 1.0.
    pub fn wrapping_add(self, other: Self) -> (r: Self)
        ensures
            r.bits == (self.bits + other.bits) % (WRAP32 as int),
    {
        let s: u64 = self.bits as u64 + other.bits as u64;
        ColorV { bits: (s % WRAP32) as u32 }
    }

    /// Modular subtraction: the value wraps below 0.0.
    pub fn wrapping_sub(self, other: Self) -> (r: Self)
        ensures
            r.bits == (self.bits + WRAP32 - other.bits) % (WRAP32 as int),
    {
        let s: u64 = self.bits as u64 + WRAP32 - other.bits as u64;
        ColorV { bits: (s % WRAP32) as u32 }
    }

    /// The widening conversion to `Extended` precision drops the low 8
    /// fractional bits, exactly as the narrower type embeds in the wider one.
    pub fn to_ext(self) -> (r: Extended)
        ensures
            r.bits == self.bits / 256,
    {
        Extended { bits: self.bits / 256 }
    }

    /// The top 8 bits of the channel, i.e. `floor(value * 256)`: the 8-bit
    /// integer a terminal expects in a truecolor escape sequence.
    pub fn scale_to_byte(self) -> (r: u8)
        ensures
            r == self.bits / 0x0100_0000,
    {
        (self.bits / 0x0100_0000) as u8
    }
}

impl Extended {
    pub fn zero() -> (r: Self)
        ensures
            r.bits == 0,
    {
        Extended { bits: 0 }
    }

    pub fn one() -> (r: Self)
        ensures
            r.bits == Q24_ONE,
    {
        Extended { bits: Q24_ONE }
    }

    pub fn from_bits(bits: u32) -> (r: Self)
        ensures
            r.bits == bits,
    {
        Extended { bits }
    }

    /// The exact `Extended` representation of a small nonnegative integer.
    pub fn from_int(v: u32) -> (r: Self)
        requires
            v < 256,
        ensures
            r.bits == v * Q24_ONE,
    {
        Extended { bits: v * Q24_ONE }
    }

    /// The integer part of the value.
    pub fn int_part(self) -> (r: u32)
        ensures
            r == self.bits as int / (Q24_ONE as int),
            r < 256,
    {
        self.bits / Q24_ONE
    }

    /// Conversion to the narrower [0, 1) type, wrapping away the integer part.
    pub fn wrapping_to_colorv(self) -> (r: ColorV)
        ensures
            r.bits == (self.bits * 256) % (WRAP32 as int),
    {
        let s: u64 = self.bits as u64 * 256;
        ColorV { bits: (s % WRAP32) as u32 }
    }

    /// Truncating division by a small integer divisor.
    pub fn div_int(self, d: u32) -> (r: Self)
        requires
            d > 0,
        ensures
            r.bits == self.bits as int / (d as int),
    {
        Extended { bits: self.bits / d }
    }

    /// The reciprocal `1 / value`, truncated to 24 fractional bits. Only
    /// defined for values >= 1, where the result stays in [0, 1].
    pub fn recip(self) -> (r: Self)
        requires
            self.bits >= Q24_ONE,
        ensures
            r.bits == 0x1_0000_0000_0000 as int / (self.bits as int),
    {
        let q: u64 = 0x1_0000_0000_0000u64 / (self.bits as u64);
        proof {
            vstd::arithmetic::div_mod::lemma_div_is_ordered_by_denominator(
                0x1_0000_0000_0000,
                Q24_ONE as int,
                self.bits as int,
            );
        }
        Extended { bits: q as u32 }
    }
}

} // verus!
