//! The two colorizer state machines: the palette-indexed colorizer (`Ansi`)
//! tracks a line and column counter and selects a discrete palette entry; the
//! truecolor colorizer (`Bits24`) tracks a wrapping sweep value and computes
//! an RGB color. Both advance their position once per character cluster,
//! before the color for that cluster is computed.

use vstd::prelude::*;

use crate::color::Color;
use crate::color::dec_bytes;
use crate::color::rainbow_spec;
use crate::color::stripe_spec;
use crate::fixed_point::ColorV;
use crate::fixed_point::Extended;
use crate::fixed_point::WRAP32;
use crate::flag::ColorMethod;
use crate::flag::Flag;

verus! {

/// A computed per-cluster color, as the driver compares and emits it: either
/// a discrete palette index or a full-precision RGB color.
#[derive(Clone, Copy, Debug, PartialEq, Eq, Structural)]
pub enum ColorCode {
    Indexed(u8),
    Rgb(Color),
}

/// The terminal reset escape sequence, `ESC [ 0 m`.
pub open spec fn reset_seq() -> Seq<u8> {
    seq![0x1bu8, 0x5b, 0x30, 0x6d]
}

/// The escape sequence that selects a color: `ESC [ 3 8 ; 5 ; {index} m` for
/// a palette index, `ESC [ 3 8 ; 2 ; {r} ; {g} ; {b} m` for a truecolor
/// value, with each component in decimal and each channel scaled to 0..=255.
pub open spec fn color_escape(code: ColorCode) -> Seq<u8> {
    match code {
        ColorCode::Indexed(n) => seq![0x1bu8, 0x5b, 0x33, 0x38, 0x3b, 0x35, 0x3b] + dec_bytes(
            n as int,
        ) + seq![0x6du8],
        ColorCode::Rgb(c) => seq![0x1bu8, 0x5b, 0x33, 0x38, 0x3b, 0x32, 0x3b] + dec_bytes(
            c.red.bits as int / 0x100_0000,
        ) + seq![0x3bu8] + dec_bytes(c.green.bits as int / 0x100_0000) + seq![0x3bu8] + dec_bytes(
            c.blue.bits as int / 0x100_0000,
        ) + seq![0x6du8],
    }
}

/// A discrete color of the terminal's indexed palette.
#[derive(Clone, Copy, Debug, PartialEq, Eq, Structural)]
pub struct AnsiColor(pub u8);

impl AnsiColor {
    /// The escape sequence that selects this palette color.
    pub fn escape_bytes(&self) -> (r: Vec<u8>)
        ensures
            r@ == color_escape(ColorCode::Indexed(self.0)),
    {
        let mut out: Vec<u8> = Vec::new();
        push_color_escape(&mut out, ColorCode::Indexed(self.0));
        out
    }
}

/// Writes the reset escape sequence.
pub struct TerminalResetter;

impl TerminalResetter {
    /// The bytes of the terminal reset escape sequence.
    pub fn reset_bytes() -> (r: Vec<u8>)
        ensures
            r@ == reset_seq(),
    {
        let mut v: Vec<u8> = Vec::new();
        v.push(0x1b);
        v.push(0x5b);
        v.push(0x30);
        v.push(0x6d);
        proof {
            assert(v@ =~= reset_seq());
        }
        v
    }
}

/// Appends the escape sequence for `code`.
pub fn push_color_escape(out: &mut Vec<u8>, code: ColorCode)
    ensures
        final(out)@ == old(out)@ + color_escape(code),
{
    out.push(0x1b);
    out.push(0x5b);
    out.push(0x33);
    out.push(0x38);
    out.push(0x3b);
    match code {
        ColorCode::Indexed(n) => {
            out.push(0x35);
            out.push(0x3b);
            crate::color::push_dec(out, n);
            out.push(0x6d);
            proof {
                assert(out@ =~= old(out)@ + color_escape(code));
            }
        },
        ColorCode::Rgb(c) => {
            out.push(0x32);
            out.push(0x3b);
            crate::color::push_dec(out, c.red.scale_to_byte());
            out.push(0x3b);
            crate::color::push_dec(out, c.green.scale_to_byte());
            out.push(0x3b);
            crate::color::push_dec(out, c.blue.scale_to_byte());
            out.push(0x6d);
            proof {
                assert(out@ =~= old(out)@ + color_escape(code));
            }
        },
    }
}

/// Which kind of colorizer a run uses.
pub enum ColorType {
    Bits24,
    Ascii,
}

/// The visual cadence of the sweep: named presets, or explicit vertical and
/// horizontal frequencies. The pairs are the Q8.24 values of the presets.
#[derive(Clone, Copy, Debug)]
pub enum QueerCatFrequency {
    Original,
    Fast,
    HyperGay,
    UltraHyperGay,
    Aaaaaaaaaaaaa,
    Vertical(Extended),
    Horizontal(Extended),
    Custom(Extended, Extended),
}

impl QueerCatFrequency {
    /// The (horizontal, vertical) frequency pair of this setting, as a spec
    /// value. The preset constants are the Q8.24 representations of
    /// (vertical, horizontal) = (0.23, 0.1), (0.4, 0.4), (0.9, 0.9),
    /// (1.4, 1.4) and (3.0, 3.0).
    pub open spec fn as_freq_spec(self) -> (Extended, Extended) {
        match self {
            QueerCatFrequency::Original => (
                Extended { bits: 1677722u32 },
                Extended { bits: 3858760u32 },
            ),
            QueerCatFrequency::Fast => (Extended { bits: 6710886u32 }, Extended { bits: 6710886u32 }),
            QueerCatFrequency::HyperGay => (
                Extended { bits: 15099494u32 },
                Extended { bits: 15099494u32 },
            ),
            QueerCatFrequency::UltraHyperGay => (
                Extended { bits: 23488102u32 },
                Extended { bits: 23488102u32 },
            ),
            QueerCatFrequency::Aaaaaaaaaaaaa => (
                Extended { bits: 50331648u32 },
                Extended { bits: 50331648u32 },
            ),
            QueerCatFrequency::Vertical(v) => (Extended { bits: 0u32 }, v),
            QueerCatFrequency::Horizontal(h) => (h, Extended { bits: 0u32 }),
            QueerCatFrequency::Custom(v, h) => (h, v),
        }
    }

    /// The (horizontal, vertical) frequency pair of this setting.
    pub fn as_freq(self) -> (r: (Extended, Extended))
        ensures
            r == self.as_freq_spec(),
    {
        match self {
            QueerCatFrequency::Original => (Extended::from_bits(1677722), Extended::from_bits(3858760)),
            QueerCatFrequency::Fast => (Extended::from_bits(6710886), Extended::from_bits(6710886)),
            QueerCatFrequency::HyperGay => (
                Extended::from_bits(15099494),
                Extended::from_bits(15099494),
            ),
            QueerCatFrequency::UltraHyperGay => (
                Extended::from_bits(23488102),
                Extended::from_bits(23488102),
            ),
            QueerCatFrequency::Aaaaaaaaaaaaa => (
                Extended::from_bits(50331648),
                Extended::from_bits(50331648),
            ),
            QueerCatFrequency::Vertical(v) => (Extended::from_bits(0), v),
            QueerCatFrequency::Horizontal(h) => (h, Extended::from_bits(0)),
            QueerCatFrequency::Custom(v, h) => (h, v),
        }
    }
}

/// A colorizer state machine: advances its position once per cluster, then
/// yields the color for that cluster. `advanced` and `code_spec` are the
/// mathematical models of the two steps; `compat` ties the state to the flag
/// it was built for.
pub trait Colorizer: Sized {
    spec fn advanced(self, newline: bool) -> Self;

    spec fn code_spec(self, flag: &Flag) -> ColorCode;

    spec fn compat(self, flag: &Flag) -> bool;

    proof fn compat_preserved(self, newline: bool, flag: &Flag)
        requires
            self.compat(flag),
        ensures
            self.advanced(newline).compat(flag),
    ;

    fn advance(&mut self, newline: bool, flag: &Flag) -> (code: ColorCode)
        requires
            old(self).compat(flag),
            flag.wf(),
        ensures
            *final(self) == old(self).advanced(newline),
            code == final(self).code_spec(flag),
    ;
}

/// The palette-indexed colorizer: a line and a column counter (both advance
/// before the color is computed; a lone line feed resets the column and
/// increments the line), mapped through the index formula
/// `floor(offset * paletteLength + column * verticalFrequency +
/// line * horizontalFrequency) mod paletteLength` in wrapping Q8.24
/// arithmetic.
pub struct Ansi {
    pub line: u32,
    pub col: u32,
    pub flag_len: u32,
    pub offset: Extended,
    pub freq_v: Extended,
    pub freq_h: Extended,
}

/// The palette index the `Ansi` colorizer selects in its current state: the
/// fixed-point accumulator wraps at 2^8 (its integer part at 256), and the
/// integer part is reduced modulo the palette length.
pub open spec fn ansi_index_spec(s: Ansi) -> int {
    let acc = (s.offset.bits * s.flag_len + s.col * s.freq_v.bits + s.line * s.freq_h.bits) % (
    WRAP32 as int);
    (acc / 0x100_0000) % (s.flag_len as int)
}

impl Colorizer for Ansi {
    open spec fn advanced(self, newline: bool) -> Self {
        if newline {
            Ansi { col: 0, line: ((self.line + 1) % (WRAP32 as int)) as u32, ..self }
        } else {
            Ansi { col: ((self.col + 1) % (WRAP32 as int)) as u32, ..self }
        }
    }

    open spec fn code_spec(self, flag: &Flag) -> ColorCode {
        ColorCode::Indexed(flag.ansi_colors@[ansi_index_spec(self)])
    }

    open spec fn compat(self, flag: &Flag) -> bool {
        self.flag_len == flag.ansi_colors@.len() && self.flag_len >= 1
    }

    proof fn compat_preserved(self, newline: bool, flag: &Flag) {
    }

    fn advance(&mut self, newline: bool, flag: &Flag) -> (code: ColorCode) {
        if newline {
            self.col = 0;
            self.line = wrapping_inc(self.line);
        } else {
            self.col = wrapping_inc(self.col);
        }
        proof {
            lemma_mul_u32_fits(self.offset.bits as int, self.flag_len as int);
            lemma_mul_u32_fits(self.col as int, self.freq_v.bits as int);
            lemma_mul_u32_fits(self.line as int, self.freq_h.bits as int);
        }
        let t1: u64 = ((self.offset.bits as u64) * (self.flag_len as u64)) % WRAP32;
        let t2: u64 = ((self.col as u64) * (self.freq_v.bits as u64)) % WRAP32;
        let t3: u64 = ((self.line as u64) * (self.freq_h.bits as u64)) % WRAP32;
        let acc: u64 = (t1 + t2 + t3) % WRAP32;
        let index: usize = ((acc / 0x100_0000) % (self.flag_len as u64)) as usize;
        proof {
            let w = WRAP32 as int;
            let x = (self.offset.bits as int) * (self.flag_len as int);
            let y = (self.col as int) * (self.freq_v.bits as int);
            let z = (self.line as int) * (self.freq_h.bits as int);
            vstd::arithmetic::div_mod::lemma_add_mod_noop(x, y, w);
            vstd::arithmetic::div_mod::lemma_add_mod_noop_right(x + y, z, w);
            vstd::arithmetic::div_mod::lemma_add_mod_noop_right((x % w) + (y % w), z % w, w);
            assert((t1 + t2 + t3) as int % w == (x + y + z) % w);
            assert(index < self.flag_len);
            assert(index as int == ansi_index_spec(*self));
        }
        ColorCode::Indexed(flag.ansi_colors[index])
    }
}

/// The product of two 32-bit values fits in 64 bits.
proof fn lemma_mul_u32_fits(a: int, b: int)
    requires
        0 <= a <= 0xffff_ffff,
        0 <= b <= 0xffff_ffff,
    ensures
        0 <= a * b <= 0xffff_ffff * 0xffff_ffff,
{
    assert(a * b <= 0xffff_ffff * 0xffff_ffff) by (nonlinear_arith)
        requires
            0 <= a <= 0xffff_ffff,
            0 <= b <= 0xffff_ffff,
    ;
    assert(0 <= a * b) by (nonlinear_arith)
        requires
            0 <= a,
            0 <= b,
    ;
}

/// One wrapping increment of a counter.
fn wrapping_inc(v: u32) -> (r: u32)
    ensures
        r == (v + 1) % (WRAP32 as int),
{
    if v == 0xffff_ffff {
        0
    } else {
        v + 1
    }
}

impl Ansi {
    pub fn new(flag_len: u32, freq: QueerCatFrequency) -> (r: Self)
        ensures
            r.flag_len == flag_len,
            r.line == 0,
            r.col == 0,
            r.offset.bits == 0,
            (r.freq_h, r.freq_v) == freq.as_freq_spec(),
    {
        let (freq_h, freq_v) = freq.as_freq();
        Ansi { freq_h, freq_v, flag_len, line: 0, col: 0, offset: Extended::zero() }
    }

    pub fn with_offset(self, offset: Extended) -> (r: Self)
        ensures
            r == (Ansi { offset, ..self }),
    {
        Ansi { offset, ..self }
    }
}

/// The truecolor colorizer: a wrapping sweep value and a column-local
/// accumulator. A non-newline cluster adds the horizontal step to both; a
/// line feed adds the vertical step to the sweep and takes the accumulated
/// column contribution back out, so column progress does not carry across
/// lines.
pub struct Bits24 {
    pub theta: ColorV,
    pub col_theta: ColorV,
    pub freq_v: Extended,
    pub freq_h: Extended,
}

impl Colorizer for Bits24 {
    open spec fn advanced(self, newline: bool) -> Self {
        let w = WRAP32 as int;
        if newline {
            let t1 = (self.theta.bits + (self.freq_v.bits * 256) % w) % w;
            let t2 = (t1 + w - self.col_theta.bits) % w;
            Bits24 { theta: ColorV { bits: t2 as u32 }, col_theta: ColorV { bits: 0 }, ..self }
        } else {
            let step = (self.freq_h.bits * 256) % w;
            Bits24 {
                theta: ColorV { bits: ((self.theta.bits + step) % w) as u32 },
                col_theta: ColorV { bits: ((self.col_theta.bits + step) % w) as u32 },
                ..self
            }
        }
    }

    open spec fn code_spec(self, flag: &Flag) -> ColorCode {
        match flag.color_method {
            ColorMethod::Rainbow => ColorCode::Rgb(rainbow_spec(self.theta)),
            ColorMethod::Stripes => ColorCode::Rgb(
                stripe_spec(self.theta, flag.stripe_colors@, flag.factor.bits as int),
            ),
        }
    }

    open spec fn compat(self, flag: &Flag) -> bool {
        true
    }

    proof fn compat_preserved(self, newline: bool, flag: &Flag) {
    }

    fn advance(&mut self, newline: bool, flag: &Flag) -> (code: ColorCode) {
        if newline {
            self.theta = self.theta.wrapping_add(self.freq_v.wrapping_to_colorv());
            self.theta = self.theta.wrapping_sub(self.col_theta);
            self.col_theta = ColorV::zero();
        } else {
            let step = self.freq_h.wrapping_to_colorv();
            self.col_theta = self.col_theta.wrapping_add(step);
            self.theta = self.theta.wrapping_add(step);
        }
        match flag.color_method {
            ColorMethod::Rainbow => ColorCode::Rgb(Color::rainbow(self.theta)),
            ColorMethod::Stripes => ColorCode::Rgb(Color::stripe(self.theta, flag)),
        }
    }
}

impl Bits24 {
    /// A fresh truecolor colorizer: the configured frequencies are scaled
    /// down (by 15 horizontally and 30 vertically) to keep the visual cadence
    /// comparable to the palette colorizer.
    pub fn new(freq: QueerCatFrequency) -> (r: Self)
        ensures
            r.theta.bits == 0,
            r.col_theta.bits == 0,
            r.freq_h.bits == freq.as_freq_spec().0.bits as int / 15,
            r.freq_v.bits == freq.as_freq_spec().1.bits as int / 30,
    {
        let (freq_h, freq_v) = freq.as_freq();
        Bits24 {
            freq_h: freq_h.div_int(15),
            freq_v: freq_v.div_int(30),
            theta: ColorV::zero(),
            col_theta: ColorV::zero(),
        }
    }

    /// Shifts the starting sweep position by `offset / 12`, wrapping.
    pub fn with_offset(self, offset: Extended) -> (r: Self)
        ensures
            r.theta.bits == (self.theta.bits + ((offset.bits as int / 12) * 256) % (WRAP32 as int))
                % (WRAP32 as int),
            r.col_theta == self.col_theta,
            r.freq_v == self.freq_v,
            r.freq_h == self.freq_h,
    {
        let shift = offset.div_int(12).wrapping_to_colorv();
        Bits24 { theta: self.theta.wrapping_add(shift), ..self }
    }
}

} // verus!
