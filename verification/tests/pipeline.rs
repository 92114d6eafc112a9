use queercat::colorizer::Ansi;
use queercat::colorizer::Bits24;
use queercat::colorizer::QueerCatFrequency;
use queercat::colorizer::TerminalResetter;
use queercat::driver::QueerCat;
use queercat::filter::EscapeSkipper;
use queercat::fixed_point::Extended;
use queercat::flag::lesbian;
use queercat::flag::rainbow;
use queercat::flag::ColorMethod;
use queercat::flag::Flag;

/// A plain re-implementation of the escape deletion, for checking outputs.
fn strip_escapes(bytes: &[u8]) -> Vec<u8> {
    let mut out = Vec::new();
    let mut in_escape = false;
    for &b in bytes {
        if in_escape {
            if b.is_ascii_alphabetic() {
                in_escape = false;
            }
        } else if b == 0x1b {
            in_escape = true;
        } else {
            out.push(b);
        }
    }
    out
}

fn custom_ansi_flag(codes: Vec<u8>) -> Flag {
    Flag {
        name: "custom",
        ansi_colors: codes,
        stripe_colors: Vec::new(),
        factor: Extended::from_int(4),
        color_method: ColorMethod::Rainbow,
    }
}

#[test]
fn plain_text_passes_through_palette() {
    let flag = lesbian();
    let freq = QueerCatFrequency::Original;
    let input = b"hello, world!\nthe quick brown fox 0123456789\n";
    let cat = QueerCat::new(Ansi::new(flag.ansi_colors.len() as u32, freq), flag);
    let (out, ok) = cat.cat(input);
    assert!(ok);
    assert_eq!(strip_escapes(&out), input.to_vec());
}

#[test]
fn plain_text_passes_through_truecolor() {
    let flag = lesbian();
    let cat = QueerCat::new(Bits24::new(QueerCatFrequency::Original), flag);
    let input = b"Second line here.\nAnd a third one...\n";
    let (out, ok) = cat.cat(input);
    assert!(ok);
    assert_eq!(strip_escapes(&out), input.to_vec());

    let cat = QueerCat::new(Bits24::new(QueerCatFrequency::Fast), rainbow());
    let (out, ok) = cat.cat(input);
    assert!(ok);
    assert_eq!(strip_escapes(&out), input.to_vec());
}

#[test]
fn embedded_escapes_are_deleted() {
    let mut skipper = EscapeSkipper::new();
    let out = skipper.filter_chunk(b"\x1b[31mHello");
    assert_eq!(out, b"Hello".to_vec());
}

#[test]
fn escape_state_carries_across_chunks() {
    let mut skipper = EscapeSkipper::new();
    let first = skipper.filter_chunk(b"ab\x1b[3");
    let second = skipper.filter_chunk(b"1mX");
    assert_eq!(first, b"ab".to_vec());
    assert_eq!(second, b"X".to_vec());
}

#[test]
fn dangling_escape_is_dropped_silently() {
    let flag = custom_ansi_flag(vec![196]);
    let cat = QueerCat::new(Ansi::new(1, QueerCatFrequency::Original), flag);
    let (out, ok) = cat.cat(b"hi\x1b[99");
    assert!(ok);
    assert_eq!(strip_escapes(&out), b"hi".to_vec());
}

#[test]
fn colored_output_sees_no_input_escapes() {
    let flag = lesbian();
    let cat = QueerCat::new(Ansi::new(flag.ansi_colors.len() as u32, QueerCatFrequency::Original), flag);
    let (out, ok) = cat.cat(b"\x1b[31mHello\x1b[0m!");
    assert!(ok);
    assert_eq!(strip_escapes(&out), b"Hello!".to_vec());
}

fn run_split(flag_freq: QueerCatFrequency, input: &[u8], split: usize) -> (Vec<u8>, bool) {
    let flag = lesbian();
    let mut cat = QueerCat::new(Bits24::new(flag_freq), flag);
    let (mut out, _) = cat.feed(&input[..split]);
    let (more, _) = cat.feed(&input[split..]);
    out.extend_from_slice(&more);
    let (tail, ok) = cat.finish();
    out.extend_from_slice(&tail);
    (out, ok)
}

#[test]
fn chunk_boundaries_never_change_the_output() {
    // multi-byte characters, combining marks, and a multi-codepoint emoji
    let input = "he\u{301}llo w\u{00f6}rld \u{1f3f3}\u{fe0f}\u{200d}\u{1f308} \u{65e5}\u{672c}\n"
        .as_bytes();
    let freq = QueerCatFrequency::Original;
    let flag = lesbian();
    let whole = QueerCat::new(Bits24::new(freq), flag).cat(input);
    for split in 0..=input.len() {
        let split_run = run_split(freq, input, split);
        assert_eq!(split_run.0, whole.0, "differs at split {}", split);
        assert_eq!(split_run.1, whole.1);
    }
}

#[test]
fn single_palette_entry_emits_one_escape() {
    let flag = custom_ansi_flag(vec![196]);
    let cat = QueerCat::new(Ansi::new(1, QueerCatFrequency::Original), flag);
    let (out, ok) = cat.cat(b"AAAA");
    assert!(ok);
    assert_eq!(out, b"\x1b[38;5;196mAAAA\x1b[0m".to_vec());
}

#[test]
fn constant_truecolor_emits_one_escape() {
    // zero frequencies: the sweep never moves, so the color never changes
    let freq = QueerCatFrequency::Custom(Extended::from_bits(0), Extended::from_bits(0));
    let cat = QueerCat::new(Bits24::new(freq), rainbow());
    let (out, ok) = cat.cat(b"gay");
    assert!(ok);
    assert_eq!(out, b"\x1b[38;2;255;0;0mgay\x1b[0m".to_vec());
}

#[test]
fn empty_input_still_resets() {
    let flag = lesbian();
    let cat = QueerCat::new(Ansi::new(flag.ansi_colors.len() as u32, QueerCatFrequency::Original), flag);
    let (out, ok) = cat.cat(b"");
    assert!(ok);
    assert_eq!(out, b"\x1b[0m".to_vec());
}

#[test]
fn decode_failure_still_resets() {
    let flag = lesbian();
    let cat = QueerCat::new(Ansi::new(flag.ansi_colors.len() as u32, QueerCatFrequency::Original), flag);
    let (out, ok) = cat.cat(b"ok\xff\xfe more");
    assert!(!ok);
    assert!(out.ends_with(b"\x1b[0m"));
    // every character decoded before the error is still written
    assert_eq!(strip_escapes(&out), b"ok".to_vec());
}

#[test]
fn incomplete_tail_is_dropped_silently() {
    let flag = lesbian();
    let cat = QueerCat::new(Ansi::new(flag.ansi_colors.len() as u32, QueerCatFrequency::Original), flag);
    // a dangling first byte of a two-byte encoding: dropped, not an error
    let (out, ok) = cat.cat(b"ab\xc3");
    assert!(ok);
    assert!(out.ends_with(b"\x1b[0m"));
    assert_eq!(strip_escapes(&out), b"ab".to_vec());
}

#[test]
fn reset_bytes_are_the_reset_escape() {
    assert_eq!(TerminalResetter::reset_bytes(), b"\x1b[0m".to_vec());
}

#[test]
fn truecolor_escape_scales_channels() {
    // a rainbow flag at theta 0 is pure red: 255, 0, 0
    let freq = QueerCatFrequency::Custom(Extended::from_bits(0), Extended::from_bits(0));
    let cat = QueerCat::new(Bits24::new(freq), rainbow());
    let (out, _) = cat.cat(b"x");
    assert!(out.starts_with(b"\x1b[38;2;255;0;0m"));
}

#[test]
fn newline_cluster_bumps_line_not_column() {
    // palette: vertical freq 1.0, horizontal freq 0: colors depend on column
    // only, and restart at each newline
    let flag = custom_ansi_flag(vec![10, 20, 30, 40]);
    let freq = QueerCatFrequency::Custom(Extended::from_int(1), Extended::from_bits(0));
    let cat = QueerCat::new(Ansi::new(4, freq), flag);
    let (out, ok) = cat.cat(b"ab\ncd");
    assert!(ok);
    let expected = b"\x1b[38;5;20ma\x1b[38;5;30mb\x1b[38;5;10m\n\x1b[38;5;20mc\x1b[38;5;30md\x1b[0m";
    assert_eq!(out, expected.to_vec());
}

#[test]
fn feeding_after_an_error_stays_silent() {
    let flag = lesbian();
    let mut cat = QueerCat::new(Bits24::new(QueerCatFrequency::Original), flag);
    let (head, ok) = cat.feed(b"fine\xc0 until here");
    assert!(!ok);
    let (out, ok) = cat.feed(b"more text");
    assert!(!ok);
    assert!(out.is_empty());
    let (tail, ok) = cat.finish();
    assert!(!ok);
    assert!(tail.ends_with(b"\x1b[0m"));
    // the text decoded before the error survives in full
    let mut whole = head;
    whole.extend_from_slice(&tail);
    assert_eq!(strip_escapes(&whole), b"fine".to_vec());
}

#[test]
fn three_chunk_splits_match_the_whole() {
    let input = "a\u{301}b\u{1f308}c\n".as_bytes();
    let flag = lesbian();
    let freq = QueerCatFrequency::Original;
    let whole = QueerCat::new(Bits24::new(freq), flag).cat(input);
    for i in 0..=input.len() {
        for j in i..=input.len() {
            let flag = lesbian();
            let mut cat = QueerCat::new(Bits24::new(freq), flag);
            let (mut out, _) = cat.feed(&input[..i]);
            let (mid, _) = cat.feed(&input[i..j]);
            out.extend_from_slice(&mid);
            let (end, _) = cat.feed(&input[j..]);
            out.extend_from_slice(&end);
            let (tail, ok) = cat.finish();
            out.extend_from_slice(&tail);
            assert_eq!(out, whole.0, "differs at splits {} {}", i, j);
            assert!(ok);
        }
    }
}
