//! Cross-cutting laws of the library, each stated over the spec functions the
//! components' contracts use and proved from them.

use vstd::prelude::*;
use vstd::utf8::encode_utf8;
use vstd::utf8::encode_scalar;
use vstd::utf8::valid_first_scalar;
use vstd::utf8::decode_first_scalar;
use vstd::utf8::pop_first_scalar;
use vstd::utf8::take_first_scalar;
use vstd::utf8::valid_utf8;
use vstd::utf8::length_of_first_scalar;

use crate::colorizer::Bits24;
use crate::colorizer::Ansi;
use crate::colorizer::ColorCode;
use crate::colorizer::Colorizer;
use crate::colorizer::color_escape;
use crate::decode::utf8_parse;
use crate::driver::is_newline_cluster;
use crate::driver::render;
use crate::driver::session_chars;
use crate::filter::esc_filter;
use crate::filter::esc_state;
use crate::filter::is_ascii_alpha;
use crate::filter::lemma_esc_filter_no_escape;
use crate::fixed_point::WRAP32;
use crate::flag::Flag;

verus! {

/// The truecolor colorizer's state after `n` non-newline clusters.
pub open spec fn sweep_after(c: Bits24, n: nat) -> Bits24
    decreases n,
{
    if n == 0 {
        c
    } else {
        sweep_after(c, (n - 1) as nat).advanced(false)
    }
}

/// The per-cluster sweep step of a truecolor colorizer, as stored bits of the
/// wrapping [0, 1) position.
pub open spec fn sweep_step(c: Bits24) -> int {
    (c.freq_h.bits * 256) % (WRAP32 as int)
}

#[verifier::rlimit(100)]
proof fn lemma_sweep_after_theta(c: Bits24, n: nat)
    ensures
        sweep_after(c, n).theta.bits == (c.theta.bits + n * sweep_step(c)) % (WRAP32 as int),
        sweep_after(c, n).freq_h == c.freq_h,
        sweep_after(c, n).freq_v == c.freq_v,
    decreases n,
{
    let w = WRAP32 as int;
    let s = sweep_step(c);
    vstd::arithmetic::div_mod::lemma_mod_bound(c.freq_h.bits * 256, w);
    if n == 0 {
        vstd::arithmetic::div_mod::lemma_small_mod(c.theta.bits as nat, w as nat);
        assert(n * s == 0);
    } else {
        lemma_sweep_after_theta(c, (n - 1) as nat);
        let prev = sweep_after(c, (n - 1) as nat);
        assert(sweep_step(prev) == s);
        assert(prev.advanced(false).theta.bits == (prev.theta.bits + s) % w);
        vstd::arithmetic::div_mod::lemma_add_mod_noop_right(
            c.theta.bits + (n - 1) * s,
            s,
            w,
        );
        assert((n - 1) * s + s == n * s) by (nonlinear_arith);
    }
}

/// Sweep wraparound: applying the truecolor per-cluster update for
/// non-newline clusters a number of times that makes the accumulated step a
/// whole number of turns (in particular, `1 / horizontalStep` times when the
/// step divides 1.0 evenly) returns the sweep to its starting value.
pub proof fn lemma_sweep_wraparound(c: Bits24, n: nat)
    requires
        (n * sweep_step(c)) % (WRAP32 as int) == 0,
    ensures
        sweep_after(c, n).theta == c.theta,
{
    let w = WRAP32 as int;
    let s = sweep_step(c);
    lemma_sweep_after_theta(c, n);
    vstd::arithmetic::div_mod::lemma_add_mod_noop_right(c.theta.bits as int, n * s, w);
    vstd::arithmetic::div_mod::lemma_small_mod(c.theta.bits as nat, w as nat);
}

/// The bytes of a cluster sequence, with no escapes interleaved.
pub open spec fn cluster_bytes(cls: Seq<Seq<char>>) -> Seq<u8>
    decreases cls.len(),
{
    if cls.len() == 0 {
        seq![]
    } else {
        encode_utf8(cls[0]) + cluster_bytes(cls.drop_first())
    }
}

/// A run of clusters over which the colorizer keeps computing one and the
/// same color code.
pub open spec fn all_same_code<C: Colorizer>(
    c: C,
    flag: Flag,
    cls: Seq<Seq<char>>,
    code: ColorCode,
) -> bool
    decreases cls.len(),
{
    cls.len() == 0 || {
        let c2 = c.advanced(is_newline_cluster(cls[0]));
        &&& c2.code_spec(&flag) == code
        &&& all_same_code(c2, flag, cls.drop_first(), code)
    }
}

proof fn lemma_suppressed_run<C: Colorizer>(c: C, flag: Flag, cls: Seq<Seq<char>>, code: ColorCode)
    requires
        all_same_code(c, flag, cls, code),
    ensures
        render(c, flag, Some(code), cls) == cluster_bytes(cls),
    decreases cls.len(),
{
    if cls.len() == 0 {
        assert(render(c, flag, Some(code), cls) =~= cluster_bytes(cls));
    } else {
        let c2 = c.advanced(is_newline_cluster(cls[0]));
        lemma_suppressed_run(c2, flag, cls.drop_first(), code);
        assert(render(c, flag, Some(code), cls) =~= encode_utf8(cls[0]) + render(
            c2,
            flag,
            Some(code),
            cls.drop_first(),
        ));
        assert(cluster_bytes(cls) =~= encode_utf8(cls[0]) + cluster_bytes(cls.drop_first()));
    }
}

/// Change-suppression: over a run of clusters whose computed colors are all
/// equal (and differ from the previously emitted color), the driver writes
/// exactly one color escape sequence — before the first cluster — and then
/// only the clusters' own bytes.
pub proof fn lemma_change_suppression<C: Colorizer>(
    c: C,
    flag: Flag,
    prev: Option<ColorCode>,
    cls: Seq<Seq<char>>,
    code: ColorCode,
)
    requires
        all_same_code(c, flag, cls, code),
        cls.len() > 0,
        prev != Some(code),
    ensures
        render(c, flag, prev, cls) == color_escape(code) + cluster_bytes(cls),
{
    let c2 = c.advanced(is_newline_cluster(cls[0]));
    lemma_suppressed_run(c2, flag, cls.drop_first(), code);
    assert(render(c, flag, prev, cls) =~= color_escape(code) + (encode_utf8(cls[0])
        + cluster_bytes(cls.drop_first())));
    assert(color_escape(code) + cluster_bytes(cls) =~= color_escape(code) + (encode_utf8(cls[0])
        + cluster_bytes(cls.drop_first())));
}

/// With a vertical frequency of zero, the palette index does not depend on
/// the column at all: the index computation is driven by the line (and the
/// configured offset) alone.
pub proof fn lemma_vertical_zero_index(s: Ansi, col2: u32)
    requires
        s.freq_v.bits == 0,
    ensures
        crate::colorizer::ansi_index_spec(Ansi { col: col2, ..s }) == crate::colorizer::ansi_index_spec(s),
{
}

/// Line/column reset: a line feed resets the column, so two palette colorizer
/// states that agree on everything but the column — however deep each line
/// had run — are indistinguishable from the cluster after the newline on.
pub proof fn lemma_line_column_reset(a: Ansi, b: Ansi)
    requires
        b.line == a.line,
        b.flag_len == a.flag_len,
        b.offset == a.offset,
        b.freq_h == a.freq_h,
        b.freq_v == a.freq_v,
    ensures
        a.advanced(true) == b.advanced(true),
{
}

/// No decoded character of a session is the escape character: the filter has
/// deleted every escape sequence before decoding.
pub proof fn lemma_session_chars_no_escape(fed: Seq<u8>)
    ensures
        forall|k: int|
            0 <= k < session_chars(fed).len() ==> #[trigger] session_chars(fed)[k] != '\x1b',
{
    lemma_esc_filter_no_escape(fed, false);
    lemma_parse_no_escape(esc_filter(fed, false));
}

proof fn lemma_parse_no_escape(b: Seq<u8>)
    requires
        forall|i: int| 0 <= i < b.len() ==> b[i] != 0x1b,
    ensures
        forall|k: int| 0 <= k < utf8_parse(b).0.len() ==> #[trigger] utf8_parse(b).0[k] != '\x1b',
    decreases b.len(),
{
    if b.len() == 0 {
    } else if valid_first_scalar(b) {
        let rest = pop_first_scalar(b);
        assert(forall|i: int| 0 <= i < rest.len() ==> rest[i] != 0x1b) by {
            assert(forall|i: int|
                0 <= i < rest.len() ==> rest[i] == b[i + length_of_first_scalar(b)]);
        }
        lemma_parse_no_escape(rest);
        let cp = decode_first_scalar(b);
        let c = cp as char;
        assert(c != '\x1b') by {
            // The first scalar's own bytes form a one-scalar valid sequence;
            // re-encoding its decoded character reproduces them, so were the
            // character the escape character, the first byte would be 0x1b.
            let s1 = take_first_scalar(b);
            assert(s1 + pop_first_scalar(b) =~= b);
            lemma_restrict_take_first(b);
            assert(pop_first_scalar(s1) =~= Seq::<u8>::empty());
            assert(valid_utf8(Seq::<u8>::empty()));
            assert(valid_utf8(s1));
            vstd::utf8::decode_utf8_first_scalar(s1);
            assert(decode_first_scalar(s1) == cp && s1[0] == b[0]);
            if c == '\x1b' {
                assert(c as u32 == 0x1b);
                assert(encode_scalar(0x1b) =~= seq![0x1bu8]) by {
                    assert(((0x1bu32) & 0x7F) as u8 == 0x1b) by (bit_vector);
                }
                assert(s1 =~= seq![0x1bu8]);
                assert(b[0] == 0x1b);
            }
        }
        assert(forall|k: int|
            0 <= k < utf8_parse(b).0.len() ==> #[trigger] utf8_parse(b).0[k] != '\x1b') by {
            assert(utf8_parse(b).0 == seq![c] + utf8_parse(rest).0);
            assert(forall|k: int|
                1 <= k < utf8_parse(b).0.len() ==> utf8_parse(b).0[k] == utf8_parse(rest).0[k
                    - 1]);
        }
    }
}

/// The first scalar's own bytes are themselves a valid first scalar with the
/// same value and length.
proof fn lemma_restrict_take_first(b: Seq<u8>)
    requires
        valid_first_scalar(b),
    ensures
        valid_first_scalar(take_first_scalar(b)),
        decode_first_scalar(take_first_scalar(b)) == decode_first_scalar(b),
        length_of_first_scalar(take_first_scalar(b)) == length_of_first_scalar(b),
        take_first_scalar(b).len() == length_of_first_scalar(b),
{
    let s1 = take_first_scalar(b);
    assert(s1.len() == length_of_first_scalar(b));
    assert(s1[0] == b[0]);
    if s1.len() >= 2 {
        assert(s1[1] == b[1]);
    }
    if s1.len() >= 3 {
        assert(s1[2] == b[2]);
    }
    if s1.len() >= 4 {
        assert(s1[3] == b[3]);
    }
}

/// Escape stripping, at the cluster level: whatever segmentation the cluster
/// stream uses, as long as its clusters concatenate back to the decoded
/// characters of the session, no cluster contains the escape character.
pub proof fn lemma_escape_stripping(fed: Seq<u8>, cls: Seq<Seq<char>>)
    requires
        cls.flatten() == session_chars(fed),
    ensures
        forall|i: int, j: int|
            0 <= i < cls.len() && 0 <= j < cls[i].len() ==> #[trigger] cls[i][j] != '\x1b',
{
    lemma_session_chars_no_escape(fed);
    lemma_flatten_elements(cls, session_chars(fed));
}

proof fn lemma_flatten_elements(cls: Seq<Seq<char>>, chars: Seq<char>)
    requires
        cls.flatten() == chars,
        forall|k: int| 0 <= k < chars.len() ==> #[trigger] chars[k] != '\x1b',
    ensures
        forall|i: int, j: int|
            0 <= i < cls.len() && 0 <= j < cls[i].len() ==> #[trigger] cls[i][j] != '\x1b',
    decreases cls.len(),
{
    if cls.len() == 0 {
    } else {
        let head = cls[0];
        let rest = cls.drop_first();
        assert(cls.flatten() == head + rest.flatten());
        assert(forall|j: int| 0 <= j < head.len() ==> head[j] == chars[j]);
        let tail_chars = rest.flatten();
        assert(forall|k: int|
            0 <= k < tail_chars.len() ==> tail_chars[k] == chars[k + head.len()]);
        lemma_flatten_elements(rest, tail_chars);
        assert(forall|i: int, j: int|
            0 <= i < cls.len() && 0 <= j < cls[i].len() ==> #[trigger] cls[i][j] != '\x1b') by {
            assert(forall|i: int| 1 <= i < cls.len() ==> cls[i] == rest[i - 1]);
        }
    }
}

} // verus!

verus! {

/// Parsing pure ASCII bytes succeeds, consumes everything, and yields exactly
/// those byte values as characters.
pub proof fn lemma_parse_ascii(b: Seq<u8>)
    requires
        forall|i: int| 0 <= i < b.len() ==> b[i] < 0x80,
    ensures
        utf8_parse(b).0.len() == b.len(),
        forall|k: int| 0 <= k < b.len() ==> (#[trigger] utf8_parse(b).0[k]) as u32 == b[k],
        utf8_parse(b).1 == Seq::<u8>::empty(),
        utf8_parse(b).2,
    decreases b.len(),
{
    if b.len() == 0 {
        assert(utf8_parse(b).1 =~= Seq::<u8>::empty());
    } else {
        let b0 = b[0];
        assert(valid_first_scalar(b));
        assert(length_of_first_scalar(b) == 1);
        let rest = pop_first_scalar(b);
        assert(rest =~= b.drop_first());
        assert(forall|i: int| 0 <= i < rest.len() ==> rest[i] == b[i + 1]);
        lemma_parse_ascii(rest);
        let cp = decode_first_scalar(b);
        assert(cp == (b0 & 0x7f) as u32);
        assert(b0 < 0x80 ==> (b0 & 0x7f) == b0) by (bit_vector);
        let c = cp as char;
        assert(c as u32 == cp);
        assert(utf8_parse(b).0 == seq![c] + utf8_parse(rest).0);
        assert(forall|k: int|
            1 <= k < b.len() ==> utf8_parse(b).0[k] == utf8_parse(rest).0[k - 1]);
    }
}

/// Encoding ASCII characters gives one byte per character: the value itself.
pub proof fn lemma_encode_ascii(chars: Seq<char>)
    requires
        forall|k: int| 0 <= k < chars.len() ==> (#[trigger] chars[k] as u32) < 0x80,
    ensures
        encode_utf8(chars).len() == chars.len(),
        forall|k: int|
            0 <= k < chars.len() ==> (#[trigger] encode_utf8(chars)[k]) as u32 == chars[k] as u32,
    decreases chars.len(),
{
    if chars.len() == 0 {
    } else {
        let cp = chars[0] as u32;
        lemma_encode_ascii(chars.drop_first());
        assert(cp < 0x80 ==> ((cp & 0x7F) as u8) as u32 == cp) by (bit_vector);
        assert(encode_scalar(cp) == seq![vstd::utf8::leading_byte_width_1(cp)]);
        assert(encode_utf8(chars) == encode_scalar(cp) + encode_utf8(chars.drop_first()));
        assert(forall|k: int|
            1 <= k < chars.len() ==> encode_utf8(chars)[k] == encode_utf8(chars.drop_first())[k
                - 1]);
        assert(forall|k: int| 1 <= k < chars.len() ==> chars.drop_first()[k - 1] == chars[k]);
    }
}

/// Inside an escape sequence, non-alphabetic bytes are consumed silently.
proof fn lemma_filter_drop_nonalpha(s: Seq<u8>)
    requires
        forall|i: int| 0 <= i < s.len() ==> !is_ascii_alpha(#[trigger] s[i]),
    ensures
        esc_filter(s, true) == Seq::<u8>::empty(),
        esc_state(s, true) == true,
    decreases s.len(),
{
    if s.len() == 0 {
        assert(esc_filter(s, true) =~= Seq::<u8>::empty());
    } else {
        assert(forall|i: int| 0 <= i < s.drop_first().len() ==> s.drop_first()[i] == s[i + 1]);
        lemma_filter_drop_nonalpha(s.drop_first());
        assert(esc_filter(s, true) =~= esc_filter(s.drop_first(), true));
    }
}

/// An escape-shaped block — the escape byte, a non-alphabetic body, one
/// alphabetic terminator — filters to nothing and leaves the filter outside
/// any sequence.
proof fn lemma_filter_escape_block(s: Seq<u8>)
    requires
        s.len() >= 2,
        s[0] == 0x1b,
        forall|i: int| 1 <= i < s.len() - 1 ==> !is_ascii_alpha(#[trigger] s[i]),
        is_ascii_alpha(s[s.len() - 1]),
    ensures
        esc_filter(s, false) == Seq::<u8>::empty(),
        esc_state(s, false) == false,
{
    let rest = s.drop_first();
    let mid = rest.take(rest.len() - 1);
    let lastb = s[s.len() - 1];
    assert(rest =~= mid + seq![lastb]);
    assert(forall|i: int| 0 <= i < mid.len() ==> mid[i] == s[i + 1]);
    lemma_filter_drop_nonalpha(mid);
    crate::filter::lemma_esc_filter_append(mid, seq![lastb], true);
    crate::filter::lemma_esc_single(lastb, true);
    assert(esc_filter(s, false) =~= esc_filter(rest, true));
    assert(esc_filter(rest, true) =~= Seq::<u8>::empty() + Seq::<u8>::empty());
    assert(Seq::<u8>::empty() + Seq::<u8>::empty() =~= Seq::<u8>::empty());
}

/// The decimal digits of a number are digit bytes.
proof fn lemma_dec_bytes_digits(n: int)
    ensures
        forall|i: int|
            0 <= i < crate::color::dec_bytes(n).len() ==> 0x30 <= #[trigger] crate::color::dec_bytes(
                n,
            )[i] <= 0x39,
    decreases n,
{
    let d = crate::color::dec_bytes(n);
    if n < 0 {
    } else if n < 10 {
        assert(d =~= seq![(0x30 + n) as u8]);
    } else {
        lemma_dec_bytes_digits(n / 10);
        let dh = crate::color::dec_bytes(n / 10);
        assert(d == dh + seq![(0x30 + n % 10) as u8]);
        assert(forall|i: int| 0 <= i < dh.len() ==> d[i] == dh[i]);
        vstd::arithmetic::div_mod::lemma_mod_bound(n, 10);
        assert(d[d.len() - 1] == (0x30 + n % 10) as u8);
    }
}

/// A color escape sequence filters to nothing.
proof fn lemma_filter_color_escape(code: ColorCode)
    ensures
        esc_filter(color_escape(code), false) == Seq::<u8>::empty(),
        esc_state(color_escape(code), false) == false,
{
    let s = color_escape(code);
    match code {
        ColorCode::Indexed(n) => {
            lemma_dec_bytes_digits(n as int);
            let d = crate::color::dec_bytes(n as int);
            assert(s =~= seq![0x1bu8, 0x5b, 0x33, 0x38, 0x3b, 0x35, 0x3b] + d + seq![0x6du8]);
            assert(s[0] == 0x1b);
            assert(s[s.len() - 1] == 0x6d);
            assert(forall|i: int| 1 <= i < s.len() - 1 ==> !is_ascii_alpha(#[trigger] s[i])) by {
                assert(forall|i: int| 7 <= i < 7 + d.len() ==> s[i] == d[i - 7]);
            }
            lemma_filter_escape_block(s);
        },
        ColorCode::Rgb(c) => {
            let dr = crate::color::dec_bytes(c.red.bits as int / 0x100_0000);
            let dg = crate::color::dec_bytes(c.green.bits as int / 0x100_0000);
            let db = crate::color::dec_bytes(c.blue.bits as int / 0x100_0000);
            lemma_dec_bytes_digits(c.red.bits as int / 0x100_0000);
            lemma_dec_bytes_digits(c.green.bits as int / 0x100_0000);
            lemma_dec_bytes_digits(c.blue.bits as int / 0x100_0000);
            let pre = seq![0x1bu8, 0x5b, 0x33, 0x38, 0x3b, 0x32, 0x3b];
            assert(s =~= pre + dr + seq![0x3bu8] + dg + seq![0x3bu8] + db + seq![0x6du8]);
            assert(s[0] == 0x1b);
            assert(s[s.len() - 1] == 0x6d);
            assert(forall|i: int| 1 <= i < s.len() - 1 ==> !is_ascii_alpha(#[trigger] s[i])) by {
                assert(forall|i: int| 0 <= i < 7 ==> s[i] == pre[i]);
                assert(forall|i: int| 7 <= i < 7 + dr.len() ==> s[i] == dr[i - 7]);
                assert(s[7 + dr.len() as int] == 0x3b);
                assert(forall|i: int|
                    8 + dr.len() <= i < 8 + dr.len() + dg.len() ==> s[i] == dg[i - 8 - dr.len()]);
                assert(s[8 + dr.len() as int + dg.len() as int] == 0x3b);
                assert(forall|i: int|
                    9 + dr.len() + dg.len() <= i < 9 + dr.len() + dg.len() + db.len() ==> s[i]
                        == db[i - 9 - dr.len() - dg.len()]);
            }
            lemma_filter_escape_block(s);
        },
    }
}

/// The terminal reset sequence filters to nothing.
proof fn lemma_filter_reset()
    ensures
        esc_filter(crate::colorizer::reset_seq(), false) == Seq::<u8>::empty(),
        esc_state(crate::colorizer::reset_seq(), false) == false,
{
    let s = crate::colorizer::reset_seq();
    assert(s[0] == 0x1b && s[3] == 0x6d && s.len() == 4);
    assert(forall|i: int| 1 <= i < s.len() - 1 ==> !is_ascii_alpha(#[trigger] s[i]));
    lemma_filter_escape_block(s);
}

/// A character of plain ASCII text: any ASCII character other than the
/// escape character itself.
pub open spec fn is_plain_char(c: char) -> bool {
    (c as u32) < 0x80 && (c as u32) != 0x1b
}

/// Filtering what the driver renders for plain-text clusters recovers exactly
/// the clusters' own bytes: every escape sequence the driver interleaves is
/// deleted again, and cluster bytes pass through.
proof fn lemma_filter_render<C: Colorizer>(
    c: C,
    flag: Flag,
    prev: Option<ColorCode>,
    cls: Seq<Seq<char>>,
)
    requires
        forall|i: int, j: int|
            0 <= i < cls.len() && 0 <= j < cls[i].len() ==> is_plain_char(#[trigger] cls[i][j]),
    ensures
        esc_filter(render(c, flag, prev, cls), false) == cluster_bytes(cls),
        esc_state(render(c, flag, prev, cls), false) == false,
    decreases cls.len(),
{
    if cls.len() == 0 {
        assert(esc_filter(render(c, flag, prev, cls), false) =~= cluster_bytes(cls));
    } else {
        let head = cls[0];
        let rest = cls.drop_first();
        let c2 = c.advanced(is_newline_cluster(head));
        let code = c2.code_spec(&flag);
        let esc: Seq<u8> = if prev == Some(code) {
            seq![]
        } else {
            color_escape(code)
        };
        let enc = encode_utf8(head);
        assert(forall|j: int| 0 <= j < head.len() ==> is_plain_char(#[trigger] head[j]));
        assert(forall|j: int| 0 <= j < head.len() ==> (#[trigger] head[j] as u32) < 0x80);
        lemma_encode_ascii(head);
        assert(forall|k: int| 0 <= k < enc.len() ==> #[trigger] enc[k] != 0x1b) by {
            assert(forall|k: int|
                0 <= k < enc.len() ==> (#[trigger] enc[k]) as u32 == head[k] as u32);
        }
        crate::filter::lemma_esc_filter_clean(enc);
        assert(forall|i: int, j: int|
            0 <= i < rest.len() && 0 <= j < rest[i].len() ==> is_plain_char(
                #[trigger] rest[i][j],
            )) by {
            assert(forall|i: int| 0 <= i < rest.len() ==> rest[i] == cls[i + 1]);
        }
        lemma_filter_render(c2, flag, Some(code), rest);
        let tail = render(c2, flag, Some(code), rest);
        assert(render(c, flag, prev, cls) =~= esc + (enc + tail));
        crate::filter::lemma_esc_filter_append(enc, tail, false);
        crate::filter::lemma_esc_filter_append(esc, enc + tail, false);
        if prev == Some(code) {
            assert(esc_filter(esc, false) =~= Seq::<u8>::empty());
        } else {
            lemma_filter_color_escape(code);
        }
        assert(esc_filter(render(c, flag, prev, cls), false) =~= enc + cluster_bytes(rest));
        assert(cluster_bytes(cls) =~= enc + cluster_bytes(rest));
    }
}

/// Every element of a flattened sequence of clusters is one of the flattened
/// characters.
proof fn lemma_flatten_plain(cls: Seq<Seq<char>>, chars: Seq<char>)
    requires
        cls.flatten() == chars,
        forall|k: int| 0 <= k < chars.len() ==> is_plain_char(#[trigger] chars[k]),
    ensures
        forall|i: int, j: int|
            0 <= i < cls.len() && 0 <= j < cls[i].len() ==> is_plain_char(#[trigger] cls[i][j]),
    decreases cls.len(),
{
    if cls.len() > 0 {
        let head = cls[0];
        let rest = cls.drop_first();
        assert(cls.flatten() == head + rest.flatten());
        assert(forall|j: int| 0 <= j < head.len() ==> head[j] == chars[j]);
        let tail_chars = rest.flatten();
        assert(forall|k: int|
            0 <= k < tail_chars.len() ==> tail_chars[k] == chars[k + head.len()]);
        lemma_flatten_plain(rest, tail_chars);
        assert(forall|i: int, j: int|
            0 <= i < cls.len() && 0 <= j < cls[i].len() ==> is_plain_char(
                #[trigger] cls[i][j],
            )) by {
            assert(forall|i: int| 1 <= i < cls.len() ==> cls[i] == rest[i - 1]);
        }
    }
}

/// The concatenated bytes of clusters are the encoding of their flattening.
proof fn lemma_cluster_bytes_flatten(cls: Seq<Seq<char>>)
    ensures
        cluster_bytes(cls) == encode_utf8(cls.flatten()),
    decreases cls.len(),
{
    if cls.len() == 0 {
        assert(cls.flatten() =~= Seq::<char>::empty());
        assert(cluster_bytes(cls) =~= encode_utf8(cls.flatten()));
    } else {
        lemma_cluster_bytes_flatten(cls.drop_first());
        crate::decode::lemma_encode_utf8_append(cls[0], cls.drop_first().flatten());
        assert(cls.flatten() == cls[0] + cls.drop_first().flatten());
        assert(cluster_bytes(cls) =~= encode_utf8(cls.flatten()));
    }
}

/// Idempotent pass-through of plain text: colorizing ASCII text that holds no
/// escape byte, with any flag, and then deleting the escape sequences from
/// the output, reproduces the input bytes exactly, in order. `cls` is the
/// cluster stream of the decoded input, which concatenates back to it.
pub proof fn lemma_plain_text_pass_through<C: Colorizer>(
    c0: C,
    flag: Flag,
    input: Seq<u8>,
    cls: Seq<Seq<char>>,
)
    requires
        forall|i: int| 0 <= i < input.len() ==> #[trigger] input[i] < 0x80 && input[i] != 0x1b,
        cls == crate::segment::clusters_of(session_chars(input)),
        cls.flatten() == session_chars(input),
    ensures
        esc_filter(crate::driver::cat_out(c0, flag, input), false) == input,
{
    crate::filter::lemma_esc_filter_clean(input);
    lemma_parse_ascii(input);
    let chars = session_chars(input);
    assert(chars == utf8_parse(input).0);
    let out = crate::driver::cat_out(c0, flag, input);
    if input.len() == 0 {
        assert(chars.len() == 0);
        assert(out =~= render(c0, flag, None::<ColorCode>, Seq::<Seq<char>>::empty())
            + crate::colorizer::reset_seq());
        assert(render(c0, flag, None::<ColorCode>, Seq::<Seq<char>>::empty())
            =~= Seq::<u8>::empty());
        assert(out =~= crate::colorizer::reset_seq());
        lemma_filter_reset();
        assert(esc_filter(out, false) =~= input);
    } else {
        assert(chars.len() == input.len());
        assert(forall|k: int| 0 <= k < chars.len() ==> is_plain_char(#[trigger] chars[k]));
        lemma_flatten_plain(cls, chars);
        assert(out =~= render(c0, flag, None::<ColorCode>, cls) + crate::colorizer::reset_seq());
        lemma_filter_render(c0, flag, None::<ColorCode>, cls);
        crate::filter::lemma_esc_filter_append(
            render(c0, flag, None::<ColorCode>, cls),
            crate::colorizer::reset_seq(),
            false,
        );
        lemma_filter_reset();
        lemma_cluster_bytes_flatten(cls);
        lemma_encode_ascii(chars);
        assert(esc_filter(out, false) =~= cluster_bytes(cls) + Seq::<u8>::empty());
        assert(cluster_bytes(cls) =~= encode_utf8(chars));
        assert(encode_utf8(chars) =~= input);
    }
}

} // verus!
