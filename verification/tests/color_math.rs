use queercat::color::Color;
use queercat::colorizer::Ansi;
use queercat::colorizer::Bits24;
use queercat::colorizer::ColorCode;
use queercat::colorizer::Colorizer;
use queercat::colorizer::QueerCatFrequency;
use queercat::fixed_point::ColorV;
use queercat::fixed_point::Extended;
use queercat::fixed_point::Q24_ONE;
use queercat::flag::lesbian;
use queercat::flag::rainbow;
use queercat::flag::transgender;
use queercat::flag::aroace;
use queercat::flag::aromantic;
use queercat::flag::asexual;
use queercat::flag::bisexual;
use queercat::flag::flag_of;
use queercat::flag::gay;
use queercat::flag::gender_fluid;
use queercat::flag::nonbinary;
use queercat::flag::pansexual;
use queercat::flag::unlabeled;
use queercat::flag::ColorMethod;
use queercat::flag::FlagChoice;

#[test]
fn from_hex_splits_channels() {
    let c = Color::from_hex(0x55cdfc);
    assert_eq!(c.red().bits, 0x55 << 24);
    assert_eq!(c.green().bits, 0xcd << 24);
    assert_eq!(c.blue().bits, 0xfc << 24);
}

#[test]
fn rainbow_sector_zero_is_red() {
    let c = Color::rainbow(ColorV::from_bits(0));
    assert_eq!(c.red().bits, u32::MAX);
    assert_eq!(c.green().bits, 0);
    assert_eq!(c.blue().bits, 0);
}

#[test]
fn rainbow_sector_boundaries() {
    // just past 1/6: sector 1, red fading from full, green saturated
    let sixth = ColorV::from_bits(2796203 * 256);
    let c = Color::rainbow(sixth);
    assert_eq!(c.green().bits, u32::MAX);
    assert_eq!(c.red().bits, (2 * (1u32 << 24) - 2796203 * 6) * 256);
    assert_eq!(c.blue().bits, 0);
    // theta just before 1.0: sector 5, blue fading out
    let c = Color::rainbow(ColorV::from_bits(u32::MAX));
    assert_eq!(c.red().bits, u32::MAX);
    assert_eq!(c.green().bits, 0);
}

#[test]
fn blend_full_balance_keeps_first() {
    let a = Color::from_hex(0xff0000);
    let b = Color::from_hex(0x00ff00);
    for factor in [1u32, 2, 4, 6, 8, 100] {
        let m = a.mix(b, Extended::from_bits(Q24_ONE), Extended::from_int(factor));
        assert_eq!(m, a);
    }
}

#[test]
fn blend_below_threshold_is_second_exactly() {
    let a = Color::from_hex(0xff0000);
    let b = Color::from_hex(0x00ff00);
    // a tiny balance eased by factor 1 stays tiny: below 0.0625
    let m = a.mix(b, Extended::from_bits(1), Extended::from_int(1));
    assert_eq!(m, b);
    // balance 0.5 with a large factor collapses below the threshold too
    let m = a.mix(b, Extended::from_bits(Q24_ONE / 2), Extended::from_int(8));
    assert_eq!(m, b);
}

#[test]
fn stripe_start_is_the_stripe_color() {
    let flag = transgender();
    let c = Color::stripe(ColorV::from_bits(0), &flag);
    assert_eq!(c, flag.stripe_colors[0]);
}

#[test]
fn stripe_interpolates_toward_next() {
    let flag = lesbian();
    // midway into the first stripe: an even blend of stripes 0 and 1, eased
    let n = flag.stripe_colors.len() as u64;
    let theta = ColorV::from_bits(((1u64 << 32) / (2 * n)) as u32);
    let c = Color::stripe(theta, &flag);
    // the result stays between the two stripe endpoints channel by channel
    let lo = |x: u32, y: u32| x.min(y);
    let hi = |x: u32, y: u32| x.max(y);
    let (s0, s1) = (flag.stripe_colors[0], flag.stripe_colors[1]);
    assert!(c.red().bits >= lo(s0.red().bits, s1.red().bits));
    assert!(c.red().bits <= hi(s0.red().bits, s1.red().bits));
    assert!(c.green().bits >= lo(s0.green().bits, s1.green().bits));
    assert!(c.green().bits <= hi(s0.green().bits, s1.green().bits));
}

#[test]
fn sweep_wraps_back_to_start() {
    // horizontal frequency 15 * 2^16 in Q8.24: the per-cluster step becomes
    // exactly 2^24 of 2^32, so 256 non-newline updates make one full turn
    let freq = QueerCatFrequency::Custom(Extended::from_bits(0), Extended::from_bits(15 << 16));
    let flag = rainbow();
    let mut c = Bits24::new(freq);
    let start = c.theta;
    for _ in 0..256 {
        c.advance(false, &flag);
    }
    assert_eq!(c.theta, start);
}

#[test]
fn newline_takes_column_contribution_back_out() {
    let freq = QueerCatFrequency::Custom(Extended::from_bits(0), Extended::from_bits(15 << 16));
    let flag = rainbow();
    let mut c = Bits24::new(freq);
    let start = c.theta;
    for _ in 0..7 {
        c.advance(false, &flag);
    }
    // vertical step is 0, so the newline only removes the column accumulator
    c.advance(true, &flag);
    assert_eq!(c.theta, start);
    assert_eq!(c.col_theta.bits, 0);
}

#[test]
fn palette_index_formula() {
    // offset 0, freq_v = 1.0, freq_h = 0: the index walks the palette by
    // column, modulo its length
    let flag = lesbian();
    let freq = QueerCatFrequency::Custom(Extended::from_int(1), Extended::from_bits(0));
    let mut a = Ansi::new(flag.ansi_colors.len() as u32, freq);
    let mut seen = Vec::new();
    for _ in 0..6 {
        match a.advance(false, &flag) {
            ColorCode::Indexed(n) => seen.push(n),
            ColorCode::Rgb(_) => panic!("palette colorizer yielded an RGB color"),
        }
    }
    // columns 1..=6 against palette [196, 208, 255, 170, 128]
    assert_eq!(seen, vec![208, 255, 170, 128, 196, 208]);
}

#[test]
fn vertical_zero_resets_after_newline() {
    // with verticalFrequency = 0 the column never matters: two runs with
    // different column depth on the first line agree from the newline on
    let flag = lesbian();
    let freq = QueerCatFrequency::Custom(Extended::from_bits(0), Extended::from_int(1));
    let len = flag.ansi_colors.len() as u32;
    let mut deep = Ansi::new(len, freq);
    let mut shallow = Ansi::new(len, freq);
    for _ in 0..37 {
        deep.advance(false, &flag);
    }
    shallow.advance(false, &flag);
    let d = deep.advance(true, &flag);
    let s = shallow.advance(true, &flag);
    assert_eq!(d, s);
    assert_eq!(deep.advance(false, &flag), shallow.advance(false, &flag));
}

#[test]
fn frequency_presets() {
    let (h, v) = QueerCatFrequency::Original.as_freq();
    assert_eq!(h.bits, 1677722);
    assert_eq!(v.bits, 3858760);
    let (h, v) = QueerCatFrequency::Aaaaaaaaaaaaa.as_freq();
    assert_eq!(h.bits, 3 << 24);
    assert_eq!(v.bits, 3 << 24);
}

#[test]
fn catalogue_flags_are_well_formed() {
    let flags = vec![
        transgender(),
        nonbinary(),
        lesbian(),
        gay(),
        pansexual(),
        bisexual(),
        gender_fluid(),
        asexual(),
        unlabeled(),
        aromantic(),
        aroace(),
    ];
    for f in &flags {
        assert!(matches!(f.color_method, ColorMethod::Stripes));
        assert!(!f.stripe_colors.is_empty());
        assert!(!f.ansi_colors.is_empty());
        assert!(f.factor.bits > 0);
    }
    let r = flag_of(FlagChoice::Rainbow);
    assert!(matches!(r.color_method, ColorMethod::Rainbow));
    assert_eq!(r.ansi_colors.len(), 30);
    assert_eq!(lesbian().ansi_colors, vec![196, 208, 255, 170, 128]);
}
