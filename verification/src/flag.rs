//! Flags: named palettes consisting of an ordered sequence of indexed
//! terminal colors, an ordered sequence of RGB stripe stops, a blend
//! sharpness factor, and a selector of the color algorithm.

use vstd::prelude::*;

use crate::color::color_of_hex;
use crate::color::Color;
use crate::fixed_point::Extended;

verus! {

/// Which color algorithm a flag uses: interpolation between discrete stripe
/// stops, or the continuous hue sweep.
#[derive(Clone, Copy, Debug, PartialEq, Eq, Structural)]
pub enum ColorMethod {
    Stripes,
    Rainbow,
}

/// A named palette. The stripe stops drive the truecolor colorizer, the
/// indexed colors drive the palette colorizer.
#[derive(Clone, Debug)]
pub struct Flag {
    pub name: &'static str,
    pub ansi_colors: Vec<u8>,
    pub stripe_colors: Vec<Color>,
    pub factor: Extended,
    pub color_method: ColorMethod,
}

impl Flag {
    /// Well-formedness: a flag whose algorithm is stripe interpolation has at
    /// least one stripe stop (and at most 255, the limit of the fixed-point
    /// index computation).
    pub open spec fn wf(&self) -> bool {
        self.color_method == ColorMethod::Stripes ==> 1 <= self.stripe_colors@.len() <= 255
    }
}

/// The built-in flags a caller can select.
#[derive(Clone, Copy, Debug, PartialEq, Eq, Structural)]
pub enum FlagChoice {
    Rainbow,
    Transgender,
    NonBinary,
    Lesbian,
    Gay,
    Pansexual,
    Bisexual,
    GenderFluid,
    Asexual,
    Unlabeled,
    Aromantic,
    Aroace,
}

fn stripes_from_hex(hex: Vec<u32>) -> (r: Vec<Color>)
    ensures
        r@.len() == hex@.len(),
        forall|i: int| 0 <= i < hex@.len() ==> #[trigger] r@[i] == color_of_hex(hex@[i] as int),
{
    let mut out: Vec<Color> = Vec::new();
    let mut i: usize = 0;
    while i < hex.len()
        invariant
            i <= hex@.len(),
            out@.len() == i,
            forall|j: int| 0 <= j < i ==> #[trigger] out@[j] == color_of_hex(hex@[j] as int),
        decreases hex@.len() - i,
    {
        out.push(Color::from_hex(hex[i]));
        i = i + 1;
    }
    out
}

/// The observable content of a flag: its ordered palette codes, its ordered
/// stripe stops, its blend factor (as Q8.24 bits) and its algorithm selector.
pub open spec fn flag_views(r: Flag) -> (Seq<u8>, Seq<Color>, int, ColorMethod) {
    (r.ansi_colors@, r.stripe_colors@, r.factor.bits as int, r.color_method)
}

/// The exact content of each built-in flag.
pub open spec fn builtin_flag_views(choice: FlagChoice) -> (Seq<u8>, Seq<Color>, int, ColorMethod) {
    match choice {
        FlagChoice::Rainbow => (
            seq![
                39u8, 38, 44, 43, 49, 48, 84, 83, 119, 118, 154, 148, 184, 178, 214, 208,
                209, 203, 204, 198, 199, 163, 164, 128, 129, 93, 99, 63, 69, 33,
            ],
            Seq::<Color>::empty(),
            0 as int,
            ColorMethod::Rainbow,
        ),
        FlagChoice::Transgender => (
            seq![
                81u8, 81, 217, 217, 231, 231, 217, 217, 81, 81,
            ],
            seq![
                color_of_hex(0x55cdfc),
                color_of_hex(0xf7a8b8),
                color_of_hex(0xffffff),
                color_of_hex(0xf7a8b8),
                color_of_hex(0x55cdfc),
            ],
            4 * 0x100_0000 as int,
            ColorMethod::Stripes,
        ),
        FlagChoice::NonBinary => (
            seq![
                226u8, 226, 255, 255, 93, 93, 234, 234,
            ],
            seq![
                color_of_hex(0xffff00),
                color_of_hex(0xb000ff),
                color_of_hex(0xffffff),
                color_of_hex(0x000000),
            ],
            4 * 0x100_0000 as int,
            ColorMethod::Stripes,
        ),
        FlagChoice::Lesbian => (
            seq![
                196u8, 208, 255, 170, 128,
            ],
            seq![
                color_of_hex(0xff0000),
                color_of_hex(0xff993f),
                color_of_hex(0xffffff),
                color_of_hex(0xff8cbd),
                color_of_hex(0xff4284),
            ],
            2 * 0x100_0000 as int,
            ColorMethod::Stripes,
        ),
        FlagChoice::Gay => (
            seq![
                36u8, 49, 121, 255, 117, 105, 92,
            ],
            seq![
                color_of_hex(0x00b685),
                color_of_hex(0x6bffb6),
                color_of_hex(0xffffff),
                color_of_hex(0x8be1ff),
                color_of_hex(0x8e1ae1),
            ],
            6 * 0x100_0000 as int,
            ColorMethod::Stripes,
        ),
        FlagChoice::Pansexual => (
            seq![
                200u8, 200, 200, 227, 227, 227, 45, 45, 45,
            ],
            seq![
                color_of_hex(0xff3388),
                color_of_hex(0xffea00),
                color_of_hex(0x00dbff),
            ],
            8 * 0x100_0000 as int,
            ColorMethod::Stripes,
        ),
        FlagChoice::Bisexual => (
            seq![
                162u8, 162, 162, 129, 129, 27, 27, 27,
            ],
            seq![
                color_of_hex(0xff3b7b),
                color_of_hex(0xff3b7b),
                color_of_hex(0xd06bcc),
                color_of_hex(0x3b72ff),
                color_of_hex(0x3b72ff),
            ],
            4 * 0x100_0000 as int,
            ColorMethod::Stripes,
        ),
        FlagChoice::GenderFluid => (
            seq![
                219u8, 219, 255, 255, 128, 128, 234, 234, 20, 20,
            ],
            seq![
                color_of_hex(0xffa0bc),
                color_of_hex(0xffffff),
                color_of_hex(0xc600e4),
                color_of_hex(0x000000),
                color_of_hex(0x4e3cbb),
            ],
            2 * 0x100_0000 as int,
            ColorMethod::Stripes,
        ),
        FlagChoice::Asexual => (
            seq![
                233u8, 233, 247, 247, 255, 255, 5, 5,
            ],
            seq![
                color_of_hex(0x000000),
                color_of_hex(0xa3a3a3),
                color_of_hex(0xffffff),
                color_of_hex(0x800080),
            ],
            4 * 0x100_0000 as int,
            ColorMethod::Stripes,
        ),
        FlagChoice::Unlabeled => (
            seq![
                194u8, 194, 255, 255, 195, 195, 223, 223,
            ],
            seq![
                color_of_hex(0xe6f9e3),
                color_of_hex(0xfdfdfb),
                color_of_hex(0xdeeff9),
                color_of_hex(0xfae1c2),
            ],
            4 * 0x100_0000 as int,
            ColorMethod::Stripes,
        ),
        FlagChoice::Aromantic => (
            seq![
                34u8, 34, 120, 120, 255, 255, 247, 247, 233, 233,
            ],
            seq![
                color_of_hex(0x3da542),
                color_of_hex(0xa8d379),
                color_of_hex(0xffffff),
                color_of_hex(0xa9a9a9),
                color_of_hex(0x000000),
            ],
            0x100_0000 as int,
            ColorMethod::Stripes,
        ),
        FlagChoice::Aroace => (
            seq![
                208u8, 208, 220, 220, 255, 255, 75, 75, 62, 62,
            ],
            seq![
                color_of_hex(0xe28d00),
                color_of_hex(0xeccd00),
                color_of_hex(0xffffff),
                color_of_hex(0x62afdd),
                color_of_hex(0x203756),
            ],
            0x100_0000 as int,
            ColorMethod::Stripes,
        ),
    }
}

pub fn rainbow() -> (r: Flag)
    ensures
        r.wf(),
        flag_views(r) == builtin_flag_views(FlagChoice::Rainbow),
{
    let r = Flag {
        name: "rainbow",
        ansi_colors: vec![
            39u8, 38, 44, 43, 49, 48, 84, 83, 119, 118, 154, 148, 184, 178, 214, 208,
            209, 203, 204, 198, 199, 163, 164, 128, 129, 93, 99, 63, 69, 33,
        ],
        stripe_colors: Vec::new(),
        factor: Extended::zero(),
        color_method: ColorMethod::Rainbow,
    };
    proof {
        assert(r.ansi_colors@ =~= builtin_flag_views(FlagChoice::Rainbow).0);
        assert(r.stripe_colors@ =~= builtin_flag_views(FlagChoice::Rainbow).1);
    }
    r
}

pub fn transgender() -> (r: Flag)
    ensures
        r.wf(),
        flag_views(r) == builtin_flag_views(FlagChoice::Transgender),
{
    let r = Flag {
        name: "transgender",
        ansi_colors: vec![
            81u8, 81, 217, 217, 231, 231, 217, 217, 81, 81,
        ],
        stripe_colors: stripes_from_hex(vec![
            0x55cdfc,
            0xf7a8b8,
            0xffffff,
            0xf7a8b8,
            0x55cdfc,
        ]),
        factor: Extended::from_int(4),
        color_method: ColorMethod::Stripes,
    };
    proof {
        assert(r.ansi_colors@ =~= builtin_flag_views(FlagChoice::Transgender).0);
        assert(r.stripe_colors@ =~= builtin_flag_views(FlagChoice::Transgender).1);
    }
    r
}

pub fn nonbinary() -> (r: Flag)
    ensures
        r.wf(),
        flag_views(r) == builtin_flag_views(FlagChoice::NonBinary),
{
    let r = Flag {
        name: "nonbinary",
        ansi_colors: vec![
            226u8, 226, 255, 255, 93, 93, 234, 234,
        ],
        stripe_colors: stripes_from_hex(vec![0xffff00, 0xb000ff, 0xffffff, 0x000000]),
        factor: Extended::from_int(4),
        color_method: ColorMethod::Stripes,
    };
    proof {
        assert(r.ansi_colors@ =~= builtin_flag_views(FlagChoice::NonBinary).0);
        assert(r.stripe_colors@ =~= builtin_flag_views(FlagChoice::NonBinary).1);
    }
    r
}

pub fn lesbian() -> (r: Flag)
    ensures
        r.wf(),
        flag_views(r) == builtin_flag_views(FlagChoice::Lesbian),
{
    let r = Flag {
        name: "lesbian",
        ansi_colors: vec![
            196u8, 208, 255, 170, 128,
        ],
        stripe_colors: stripes_from_hex(vec![
            0xff0000,
            0xff993f,
            0xffffff,
            0xff8cbd,
            0xff4284,
        ]),
        factor: Extended::from_int(2),
        color_method: ColorMethod::Stripes,
    };
    proof {
        assert(r.ansi_colors@ =~= builtin_flag_views(FlagChoice::Lesbian).0);
        assert(r.stripe_colors@ =~= builtin_flag_views(FlagChoice::Lesbian).1);
    }
    r
}

pub fn gay() -> (r: Flag)
    ensures
        r.wf(),
        flag_views(r) == builtin_flag_views(FlagChoice::Gay),
{
    let r = Flag {
        name: "gay",
        ansi_colors: vec![
            36u8, 49, 121, 255, 117, 105, 92,
        ],
        stripe_colors: stripes_from_hex(vec![
            0x00b685,
            0x6bffb6,
            0xffffff,
            0x8be1ff,
            0x8e1ae1,
        ]),
        factor: Extended::from_int(6),
        color_method: ColorMethod::Stripes,
    };
    proof {
        assert(r.ansi_colors@ =~= builtin_flag_views(FlagChoice::Gay).0);
        assert(r.stripe_colors@ =~= builtin_flag_views(FlagChoice::Gay).1);
    }
    r
}

pub fn pansexual() -> (r: Flag)
    ensures
        r.wf(),
        flag_views(r) == builtin_flag_views(FlagChoice::Pansexual),
{
    let r = Flag {
        name: "pansexual",
        ansi_colors: vec![
            200u8, 200, 200, 227, 227, 227, 45, 45, 45,
        ],
        stripe_colors: stripes_from_hex(vec![0xff3388, 0xffea00, 0x00dbff]),
        factor: Extended::from_int(8),
        color_method: ColorMethod::Stripes,
    };
    proof {
        assert(r.ansi_colors@ =~= builtin_flag_views(FlagChoice::Pansexual).0);
        assert(r.stripe_colors@ =~= builtin_flag_views(FlagChoice::Pansexual).1);
    }
    r
}

pub fn bisexual() -> (r: Flag)
    ensures
        r.wf(),
        flag_views(r) == builtin_flag_views(FlagChoice::Bisexual),
{
    let r = Flag {
        name: "bisexual",
        ansi_colors: vec![
            162u8, 162, 162, 129, 129, 27, 27, 27,
        ],
        stripe_colors: stripes_from_hex(vec![
            0xff3b7b,
            0xff3b7b,
            0xd06bcc,
            0x3b72ff,
            0x3b72ff,
        ]),
        factor: Extended::from_int(4),
        color_method: ColorMethod::Stripes,
    };
    proof {
        assert(r.ansi_colors@ =~= builtin_flag_views(FlagChoice::Bisexual).0);
        assert(r.stripe_colors@ =~= builtin_flag_views(FlagChoice::Bisexual).1);
    }
    r
}

pub fn gender_fluid() -> (r: Flag)
    ensures
        r.wf(),
        flag_views(r) == builtin_flag_views(FlagChoice::GenderFluid),
{
    let r = Flag {
        name: "gender_fluid",
        ansi_colors: vec![
            219u8, 219, 255, 255, 128, 128, 234, 234, 20, 20,
        ],
        stripe_colors: stripes_from_hex(vec![
            0xffa0bc,
            0xffffff,
            0xc600e4,
            0x000000,
            0x4e3cbb,
        ]),
        factor: Extended::from_int(2),
        color_method: ColorMethod::Stripes,
    };
    proof {
        assert(r.ansi_colors@ =~= builtin_flag_views(FlagChoice::GenderFluid).0);
        assert(r.stripe_colors@ =~= builtin_flag_views(FlagChoice::GenderFluid).1);
    }
    r
}

pub fn asexual() -> (r: Flag)
    ensures
        r.wf(),
        flag_views(r) == builtin_flag_views(FlagChoice::Asexual),
{
    let r = Flag {
        name: "asexual",
        ansi_colors: vec![
            233u8, 233, 247, 247, 255, 255, 5, 5,
        ],
        stripe_colors: stripes_from_hex(vec![0x000000, 0xa3a3a3, 0xffffff, 0x800080]),
        factor: Extended::from_int(4),
        color_method: ColorMethod::Stripes,
    };
    proof {
        assert(r.ansi_colors@ =~= builtin_flag_views(FlagChoice::Asexual).0);
        assert(r.stripe_colors@ =~= builtin_flag_views(FlagChoice::Asexual).1);
    }
    r
}

pub fn unlabeled() -> (r: Flag)
    ensures
        r.wf(),
        flag_views(r) == builtin_flag_views(FlagChoice::Unlabeled),
{
    let r = Flag {
        name: "unlabeled",
        ansi_colors: vec![
            194u8, 194, 255, 255, 195, 195, 223, 223,
        ],
        stripe_colors: stripes_from_hex(vec![0xe6f9e3, 0xfdfdfb, 0xdeeff9, 0xfae1c2]),
        factor: Extended::from_int(4),
        color_method: ColorMethod::Stripes,
    };
    proof {
        assert(r.ansi_colors@ =~= builtin_flag_views(FlagChoice::Unlabeled).0);
        assert(r.stripe_colors@ =~= builtin_flag_views(FlagChoice::Unlabeled).1);
    }
    r
}

pub fn aromantic() -> (r: Flag)
    ensures
        r.wf(),
        flag_views(r) == builtin_flag_views(FlagChoice::Aromantic),
{
    let r = Flag {
        name: "aromantic",
        ansi_colors: vec![
            34u8, 34, 120, 120, 255, 255, 247, 247, 233, 233,
        ],
        stripe_colors: stripes_from_hex(vec![
            0x3da542,
            0xa8d379,
            0xffffff,
            0xa9a9a9,
            0x000000,
        ]),
        factor: Extended::from_int(1),
        color_method: ColorMethod::Stripes,
    };
    proof {
        assert(r.ansi_colors@ =~= builtin_flag_views(FlagChoice::Aromantic).0);
        assert(r.stripe_colors@ =~= builtin_flag_views(FlagChoice::Aromantic).1);
    }
    r
}

pub fn aroace() -> (r: Flag)
    ensures
        r.wf(),
        flag_views(r) == builtin_flag_views(FlagChoice::Aroace),
{
    let r = Flag {
        name: "aroace",
        ansi_colors: vec![
            208u8, 208, 220, 220, 255, 255, 75, 75, 62, 62,
        ],
        stripe_colors: stripes_from_hex(vec![
            0xe28d00,
            0xeccd00,
            0xffffff,
            0x62afdd,
            0x203756,
        ]),
        factor: Extended::from_int(1),
        color_method: ColorMethod::Stripes,
    };
    proof {
        assert(r.ansi_colors@ =~= builtin_flag_views(FlagChoice::Aroace).0);
        assert(r.stripe_colors@ =~= builtin_flag_views(FlagChoice::Aroace).1);
    }
    r
}

/// The flag a built-in choice stands for: well-formed, with exactly the
/// palette, stripes, factor and algorithm of that choice.
pub fn flag_of(choice: FlagChoice) -> (r: Flag)
    ensures
        r.wf(),
        flag_views(r) == builtin_flag_views(choice),
{
    match choice {
        FlagChoice::Rainbow => rainbow(),
        FlagChoice::Transgender => transgender(),
        FlagChoice::NonBinary => nonbinary(),
        FlagChoice::Lesbian => lesbian(),
        FlagChoice::Gay => gay(),
        FlagChoice::Pansexual => pansexual(),
        FlagChoice::Bisexual => bisexual(),
        FlagChoice::GenderFluid => gender_fluid(),
        FlagChoice::Asexual => asexual(),
        FlagChoice::Unlabeled => unlabeled(),
        FlagChoice::Aromantic => aromantic(),
        FlagChoice::Aroace => aroace(),
    }
}

} // verus!
