//! Incremental UTF-8 decoding: turns a byte stream, delivered in arbitrarily
//! sized chunks, into characters without corrupting multi-byte encodings that
//! straddle a chunk boundary. Bytes that do not yet form a complete scalar
//! are carried over to the next chunk; a byte sequence that can never become
//! valid, whatever bytes follow, is a hard decode error.
//!
//! The specifications build on `vstd::utf8` (`valid_first_scalar`,
//! `decode_first_scalar`, `encode_utf8`, ...).

use vstd::prelude::*;
use vstd::utf8::*;

verus! {

/// A leading byte that needs at least one more byte, and for which some
/// completion exists that forms a valid scalar.
pub open spec fn lead_needs_more(b0: u8) -> bool {
    (0xc2 <= b0 <= 0xdf) || (0xe0 <= b0 <= 0xef) || (0xf0 <= b0 <= 0xf4)
}

/// For a 3- or 4-byte leading byte, the second-byte range that can still be
/// completed to a valid scalar (excluding overlong encodings, surrogates and
/// values beyond the last codepoint).
pub open spec fn valid_second_byte(b0: u8, b1: u8) -> bool {
    if b0 == 0xe0 {
        0xa0 <= b1 <= 0xbf
    } else if b0 == 0xed {
        0x80 <= b1 <= 0x9f
    } else if 0xe1 <= b0 <= 0xef {
        0x80 <= b1 <= 0xbf
    } else if b0 == 0xf0 {
        0x90 <= b1 <= 0xbf
    } else if b0 == 0xf4 {
        0x80 <= b1 <= 0x8f
    } else if 0xf1 <= b0 <= 0xf3 {
        0x80 <= b1 <= 0xbf
    } else {
        false
    }
}

/// True when `b` is a proper prefix of some valid scalar encoding: more bytes
/// can still complete it. Such bytes are buffered, not rejected.
pub open spec fn is_incomplete_prefix(b: Seq<u8>) -> bool {
    ||| (b.len() == 1 && lead_needs_more(b[0]))
    ||| (b.len() == 2 && 0xe0 <= b[0] && valid_second_byte(b[0], b[1]))
    ||| (b.len() == 3 && 0xf0 <= b[0] && valid_second_byte(b[0], b[1]) && is_continuation_byte(
        b[2],
    ))
}

/// The maximal-prefix parse of a byte sequence: the characters of the longest
/// complete, valid UTF-8 prefix; the remaining bytes; and whether those
/// remaining bytes are acceptable (empty or completable by further input)
/// rather than a hard decode error.
pub open spec fn utf8_parse(b: Seq<u8>) -> (Seq<char>, Seq<u8>, bool)
    decreases b.len(),
{
    if b.len() == 0 {
        (Seq::<char>::empty(), Seq::<u8>::empty(), true)
    } else if valid_first_scalar(b) {
        let tail = utf8_parse(pop_first_scalar(b));
        (seq![decode_first_scalar(b) as char] + tail.0, tail.1, tail.2)
    } else if is_incomplete_prefix(b) {
        (Seq::<char>::empty(), b, true)
    } else {
        (Seq::<char>::empty(), b, false)
    }
}

/// A valid first scalar only looks at its own bytes: appending input changes
/// neither its validity, its value, nor its length.
pub proof fn lemma_valid_first_extend(s: Seq<u8>, t: Seq<u8>)
    requires
        valid_first_scalar(s),
    ensures
        valid_first_scalar(s + t),
        decode_first_scalar(s + t) == decode_first_scalar(s),
        length_of_first_scalar(s + t) == length_of_first_scalar(s),
        pop_first_scalar(s + t) == pop_first_scalar(s) + t,
{
    assert(s.len() >= 1);
    assert((s + t)[0] == s[0]);
    if s.len() >= 2 {
        assert((s + t)[1] == s[1]);
    }
    if s.len() >= 3 {
        assert((s + t)[2] == s[2]);
    }
    if s.len() >= 4 {
        assert((s + t)[3] == s[3]);
    }
    assert(pop_first_scalar(s + t) =~= pop_first_scalar(s) + t);
}

/// Once the head of the stream is neither a valid scalar nor completable, no
/// further input can mend it.
proof fn lemma_error_stable(s: Seq<u8>, t: Seq<u8>)
    requires
        s.len() > 0,
        !valid_first_scalar(s),
        !is_incomplete_prefix(s),
    ensures
        !valid_first_scalar(s + t),
        !is_incomplete_prefix(s + t),
{
    let u = s + t;
    let b0 = s[0];
    assert(u[0] == b0);
    if u.len() >= 2 && s.len() >= 2 {
        assert(u[1] == s[1]);
    }
    if u.len() >= 3 && s.len() >= 3 {
        assert(u[2] == s[2]);
    }
    if u.len() >= 4 && s.len() >= 4 {
        assert(u[3] == s[3]);
    }
    // No new "incomplete prefix": a longer incomplete prefix restricts to a
    // shorter one.
    if is_incomplete_prefix(u) {
        if u.len() == 1 {
            assert(u =~= s);
        } else if u.len() == 2 {
            if s.len() == 2 {
                assert(u =~= s);
            } else {
                assert(s.len() == 1);
                assert(u[1] == t[0]);
                assert(lead_needs_more(b0));
            }
        } else {
            assert(u.len() == 3);
            if s.len() == 3 {
                assert(u =~= s);
            } else if s.len() == 2 {
                assert(is_incomplete_prefix(s));
            } else {
                assert(lead_needs_more(b0));
            }
        }
        assert(false);
    }
    // No new valid scalar: the bytes present in `s` already rule one out.
    if valid_first_scalar(u) {
        let w = length_of_first_scalar(u);
        if w <= s.len() {
            lemma_restrict_valid(s, t);
            assert(false);
        } else {
            lemma_prefix_of_valid_is_incomplete(s, t);
            assert(false);
        }
    }
}

/// If the first scalar of `s + t` fits entirely inside `s`, then `s` already
/// begins with that valid scalar.
proof fn lemma_restrict_valid(s: Seq<u8>, t: Seq<u8>)
    requires
        s.len() > 0,
        valid_first_scalar(s + t),
        length_of_first_scalar(s + t) <= s.len(),
    ensures
        valid_first_scalar(s),
{
    let u = s + t;
    assert(u[0] == s[0]);
    if s.len() >= 2 {
        assert(u[1] == s[1]);
    }
    if s.len() >= 3 {
        assert(u[2] == s[2]);
    }
    if s.len() >= 4 {
        assert(u[3] == s[3]);
    }
}

/// If `s + t` begins with a valid scalar longer than `s`, then `s` is a
/// completable prefix.
proof fn lemma_prefix_of_valid_is_incomplete(s: Seq<u8>, t: Seq<u8>)
    requires
        s.len() > 0,
        valid_first_scalar(s + t),
        length_of_first_scalar(s + t) > s.len(),
    ensures
        is_incomplete_prefix(s),
{
    let u = s + t;
    let b0 = s[0];
    assert(u[0] == b0);
    let w = length_of_first_scalar(u);
    let cp = decode_first_codepoint(u);
    assert(1 <= w <= 4);
    assert(s.len() < w);
    if w == 2 {
        // a two-byte scalar that is not overlong forces the lead into
        // 0xc2..=0xdf
        assert(s.len() == 1);
        let b1 = u[1];
        assert(cp == codepoint_width_2(b0, b1));
        assert(is_leading_byte_width_2(b0) && 0x80 <= cp ==> 0xc2 <= b0 <= 0xdf) by (bit_vector)
            requires
                cp == (((b0 & 0x1f) as u32) << 6) | (b1 & 0x3f) as u32,
        ;
    } else if w == 3 {
        let b1 = u[1];
        let b2 = u[2];
        assert(cp == codepoint_width_3(b0, b1, b2));
        assert(is_continuation_byte(b1));
        // the overlong and surrogate exclusions pin the second byte's range
        assert((0xe0 <= b0 <= 0xef && 0x80 <= b1 <= 0xbf && 0x800 <= cp && !(0xd800 <= cp
            <= 0xdfff)) ==> valid_second_byte(b0, b1)) by (bit_vector)
            requires
                cp == (((b0 & 0x0f) as u32) << 12) | (((b1 & 0x3f) as u32) << 6) | (b2 & 0x3f) as u32,
        ;
        if s.len() == 1 {
            assert(lead_needs_more(b0));
        } else {
            assert(s.len() == 2 && s[1] == b1);
        }
    } else {
        assert(w == 4);
        let b1 = u[1];
        let b2 = u[2];
        let b3 = u[3];
        assert(cp == codepoint_width_4(b0, b1, b2, b3));
        assert(is_continuation_byte(b1) && is_continuation_byte(b2));
        assert((0xf0 <= b0 <= 0xf7 && 0x80 <= b1 <= 0xbf && 0x10000 <= cp <= 0x10ffff) ==> (0xf0
            <= b0 <= 0xf4 && valid_second_byte(b0, b1))) by (bit_vector)
            requires
                cp == (((b0 & 0x07) as u32) << 18) | (((b1 & 0x3f) as u32) << 12) | (((b2 & 0x3f) as u32) << 6) | (b3 & 0x3f) as u32,
        ;
        if s.len() == 1 {
            assert(lead_needs_more(b0));
        } else if s.len() == 2 {
            assert(s[1] == b1);
        } else {
            assert(s.len() == 3 && s[1] == b1 && s[2] == b2);
        }
    }
}

/// After an error, the parse is frozen: its remainder starts with bytes that
/// are neither a valid scalar nor completable.
proof fn lemma_parse_rest_error(b: Seq<u8>)
    requires
        !utf8_parse(b).2,
    ensures
        utf8_parse(b).1.len() > 0,
        !valid_first_scalar(utf8_parse(b).1),
        !is_incomplete_prefix(utf8_parse(b).1),
    decreases b.len(),
{
    if b.len() == 0 {
    } else if valid_first_scalar(b) {
        lemma_parse_rest_error(pop_first_scalar(b));
    }
}

/// Parsing is a streaming fold: parsing a concatenation parses the first
/// part, then the second prefixed with whatever the first part left behind.
pub proof fn lemma_parse_append(a: Seq<u8>, t: Seq<u8>)
    ensures
        utf8_parse(a + t).0 == utf8_parse(a).0 + utf8_parse(utf8_parse(a).1 + t).0,
        utf8_parse(a + t).1 == utf8_parse(utf8_parse(a).1 + t).1,
        utf8_parse(a + t).2 == utf8_parse(utf8_parse(a).1 + t).2,
    decreases a.len(),
{
    if a.len() == 0 {
        assert(a + t =~= t);
        assert(utf8_parse(a).1 + t =~= t);
        assert(utf8_parse(a).0 + utf8_parse(t).0 =~= utf8_parse(t).0);
    } else if valid_first_scalar(a) {
        lemma_valid_first_extend(a, t);
        let rest = pop_first_scalar(a);
        lemma_parse_append(rest, t);
        assert(pop_first_scalar(a + t) == rest + t);
        assert(utf8_parse(a + t).0 =~= utf8_parse(a).0 + utf8_parse(utf8_parse(a).1 + t).0);
    } else {
        // incomplete or error: nothing was consumed, the remainder is `a`
        // itself, and the concatenation parses from the very same bytes.
        assert(utf8_parse(a).1 == a);
        assert(utf8_parse(a).0 + utf8_parse(a + t).0 =~= utf8_parse(a + t).0);
    }
}

/// A decode error is irrecoverable: once the parse reports failure, no amount
/// of further input changes the decoded characters or clears the failure.
pub proof fn lemma_decode_error_is_final(b: Seq<u8>, t: Seq<u8>)
    requires
        !utf8_parse(b).2,
    ensures
        utf8_parse(b + t).0 == utf8_parse(b).0,
        !utf8_parse(b + t).2,
{
    lemma_parse_append(b, t);
    lemma_parse_rest_error(b);
    let r = utf8_parse(b).1;
    lemma_error_stable(r, t);
    assert(utf8_parse(r + t).0 =~= Seq::<char>::empty());
    assert(utf8_parse(b).0 + Seq::<char>::empty() =~= utf8_parse(b).0);
}

/// Relies on char::from_u32: a u32 that is a Unicode scalar value converts to
/// the char with exactly that value.
#[verifier::external_body]
fn char_of_scalar(v: u32) -> (c: char)
    requires
        is_scalar(v),
    ensures
        c as u32 == v,
{
    char::from_u32(v).unwrap()
}

/// Appends a slice to a byte vector.
fn extend_bytes(dst: &mut Vec<u8>, src: &[u8])
    ensures
        final(dst)@ == old(dst)@ + src@,
{
    let mut i: usize = 0;
    while i < src.len()
        invariant
            i <= src@.len(),
            dst@ == old(dst)@ + src@.take(i as int),
        decreases src@.len() - i,
    {
        dst.push(src[i]);
        proof {
            assert(src@.take(i + 1) =~= src@.take(i as int) + seq![src@[i as int]]);
            assert(old(dst)@ + src@.take(i + 1) =~= (old(dst)@ + src@.take(i as int)) + seq![
                src@[i as int],
            ]);
        }
        i = i + 1;
    }
    proof {
        assert(src@.take(src@.len() as int) =~= src@);
    }
}

/// Decodes the longest complete, valid UTF-8 prefix of the carried-over bytes
/// followed by `chunk`. Afterwards the carry buffer holds exactly the parse
/// remainder: an incomplete trailing scalar awaiting more input (when the
/// returned flag is true), or the offending bytes of a hard decode error
/// (when it is false).
pub fn decode_chunk(pending: &mut Vec<u8>, chunk: &[u8]) -> (r: (Vec<char>, bool))
    ensures
        ({
            let p = utf8_parse(old(pending)@ + chunk@);
            &&& r.0@ == p.0
            &&& final(pending)@ == p.1
            &&& r.1 == p.2
        }),
{
    let ghost all: Seq<u8> = pending@ + chunk@;
    let mut buf: Vec<u8> = Vec::new();
    extend_bytes(&mut buf, pending.as_slice());
    extend_bytes(&mut buf, chunk);
    assert(buf@ == all);

    let mut out: Vec<char> = Vec::new();
    let mut pos: usize = 0;
    // 0 = consuming, 1 = stopped at an incomplete tail, 2 = decode error
    let mut status: u8 = 0;
    proof {
        assert(all.skip(0) =~= all);
    }
    while pos < buf.len() && status == 0
        invariant
            pos <= buf@.len(),
            buf@ == all,
            status == 0 || status == 1 || status == 2,
            utf8_parse(all).0 == out@ + utf8_parse(all.skip(pos as int)).0,
            utf8_parse(all).1 == utf8_parse(all.skip(pos as int)).1,
            utf8_parse(all).2 == utf8_parse(all.skip(pos as int)).2,
            status == 1 ==> !valid_first_scalar(all.skip(pos as int)) && is_incomplete_prefix(
                all.skip(pos as int),
            ) && all.skip(pos as int).len() > 0,
            status == 2 ==> !valid_first_scalar(all.skip(pos as int)) && !is_incomplete_prefix(
                all.skip(pos as int),
            ) && all.skip(pos as int).len() > 0,
        decreases buf@.len() - pos, 1int - (if status == 0 { 0int } else { 1int }),
    {
        let ghost rem = all.skip(pos as int);
        let n = buf.len();
        let b0 = buf[pos];
        assert(rem[0] == b0);
        assert(rem.len() == n - pos);
        if b0 < 0x80 {
            let cp: u32 = b0 as u32;
            proof {
                assert(valid_first_scalar(rem));
                assert((b0 & 0x7f) as u32 == cp) by (bit_vector)
                    requires
                        b0 < 0x80,
                        cp == b0 as u32,
                ;
                assert(decode_first_scalar(rem) == cp);
                assert(length_of_first_scalar(rem) == 1);
                assert(pop_first_scalar(rem) =~= all.skip(pos + 1));
            }
            let c = char_of_scalar(cp);
            proof {
                char_u32_cast(c, cp);
            }
            out.push(c);
            proof {
                assert(utf8_parse(rem).0 =~= seq![c] + utf8_parse(all.skip(pos + 1)).0);
            }
            pos = pos + 1;
        } else if 0xc2 <= b0 && b0 <= 0xdf {
            if pos + 1 >= n {
                proof {
                    lemma_not_valid_short(rem, 2);
                }
                status = 1;
            } else {
                let b1 = buf[pos + 1];
                assert(rem[1] == b1);
                if 0x80 <= b1 && b1 <= 0xbf {
                    let cp: u32 = (((b0 & 0x1f) as u32) << 6u32) | ((b1 & 0x3f) as u32);
                    proof {
                        assert(valid_leading_and_continuation_bytes_first_codepoint(rem));
                        assert(decode_first_codepoint(rem) == cp);
                        assert(0x80 <= cp <= 0x7ff) by (bit_vector)
                            requires
                                cp == (((b0 & 0x1f) as u32) << 6u32) | ((b1 & 0x3f) as u32),
                                0xc2 <= b0 <= 0xdf,
                                0x80 <= b1 <= 0xbf,
                        ;
                        assert(valid_first_scalar(rem));
                        assert(length_of_first_scalar(rem) == 2);
                        assert(pop_first_scalar(rem) =~= all.skip(pos + 2));
                    }
                    let c = char_of_scalar(cp);
                    proof {
                        char_u32_cast(c, cp);
                        assert(utf8_parse(rem).0 =~= seq![c] + utf8_parse(all.skip(pos + 2)).0);
                    }
                    out.push(c);
                    pos = pos + 2;
                } else {
                    proof {
                        lemma_bad_continuation(rem, 1);
                    }
                    status = 2;
                }
            }
        } else if 0xe0 <= b0 && b0 <= 0xef {
            if pos + 1 >= n {
                proof {
                    lemma_not_valid_short(rem, 3);
                }
                status = 1;
            } else {
                let b1 = buf[pos + 1];
                assert(rem[1] == b1);
                let second_ok: bool = if b0 == 0xe0 {
                    0xa0 <= b1 && b1 <= 0xbf
                } else if b0 == 0xed {
                    0x80 <= b1 && b1 <= 0x9f
                } else {
                    0x80 <= b1 && b1 <= 0xbf
                };
                if !second_ok {
                    proof {
                        lemma_bad_second_byte_3(rem);
                    }
                    status = 2;
                } else if pos + 2 >= n {
                    proof {
                        lemma_not_valid_short(rem, 3);
                    }
                    status = 1;
                } else {
                    let b2 = buf[pos + 2];
                    assert(rem[2] == b2);
                    if 0x80 <= b2 && b2 <= 0xbf {
                        let cp: u32 = (((b0 & 0x0f) as u32) << 12u32) | (((b1
                            & 0x3f) as u32) << 6u32) | ((b2 & 0x3f) as u32);
                        proof {
                            assert(valid_leading_and_continuation_bytes_first_codepoint(rem));
                            assert(decode_first_codepoint(rem) == cp);
                            assert(0x800 <= cp <= 0xffff && !(0xd800 <= cp <= 0xdfff))
                                by (bit_vector)
                                requires
                                    cp == (((b0 & 0x0f) as u32) << 12u32) | (((b1
                                        & 0x3f) as u32) << 6u32) | ((b2 & 0x3f) as u32),
                                    0xe0 <= b0 <= 0xef,
                                    0x80 <= b1 <= 0xbf,
                                    0x80 <= b2 <= 0xbf,
                                    b0 == 0xe0 ==> 0xa0 <= b1,
                                    b0 == 0xed ==> b1 <= 0x9f,
                            ;
                            assert(valid_first_scalar(rem));
                            assert(length_of_first_scalar(rem) == 3);
                            assert(pop_first_scalar(rem) =~= all.skip(pos + 3));
                        }
                        let c = char_of_scalar(cp);
                        proof {
                            char_u32_cast(c, cp);
                            assert(utf8_parse(rem).0 =~= seq![c] + utf8_parse(all.skip(pos + 3)).0);
                        }
                        out.push(c);
                        pos = pos + 3;
                    } else {
                        proof {
                            lemma_bad_continuation(rem, 2);
                        }
                        status = 2;
                    }
                }
            }
        } else if 0xf0 <= b0 && b0 <= 0xf4 {
            if pos + 1 >= n {
                proof {
                    lemma_not_valid_short(rem, 4);
                }
                status = 1;
            } else {
                let b1 = buf[pos + 1];
                assert(rem[1] == b1);
                let second_ok: bool = if b0 == 0xf0 {
                    0x90 <= b1 && b1 <= 0xbf
                } else if b0 == 0xf4 {
                    0x80 <= b1 && b1 <= 0x8f
                } else {
                    0x80 <= b1 && b1 <= 0xbf
                };
                if !second_ok {
                    proof {
                        lemma_bad_second_byte_4(rem);
                    }
                    status = 2;
                } else if pos + 2 >= n {
                    proof {
                        lemma_not_valid_short(rem, 4);
                    }
                    status = 1;
                } else {
                    let b2 = buf[pos + 2];
                    assert(rem[2] == b2);
                    if !(0x80 <= b2 && b2 <= 0xbf) {
                        proof {
                            lemma_bad_continuation(rem, 2);
                        }
                        status = 2;
                    } else if pos + 3 >= n {
                        proof {
                            lemma_not_valid_short(rem, 4);
                        }
                        status = 1;
                    } else {
                        let b3 = buf[pos + 3];
                        assert(rem[3] == b3);
                        if 0x80 <= b3 && b3 <= 0xbf {
                            let cp: u32 = (((b0 & 0x07) as u32) << 18u32) | (((b1
                                & 0x3f) as u32) << 12u32) | (((b2 & 0x3f) as u32) << 6u32) | ((b3
                                & 0x3f) as u32);
                            proof {
                                assert(valid_leading_and_continuation_bytes_first_codepoint(rem));
                                assert(decode_first_codepoint(rem) == cp);
                                assert(0x10000 <= cp <= 0x10ffff) by (bit_vector)
                                    requires
                                        cp == (((b0 & 0x07) as u32) << 18u32) | (((b1
                                            & 0x3f) as u32) << 12u32) | (((b2
                                            & 0x3f) as u32) << 6u32) | ((b3 & 0x3f) as u32),
                                        0xf0 <= b0 <= 0xf4,
                                        0x80 <= b1 <= 0xbf,
                                        0x80 <= b2 <= 0xbf,
                                        0x80 <= b3 <= 0xbf,
                                        b0 == 0xf0 ==> 0x90 <= b1,
                                        b0 == 0xf4 ==> b1 <= 0x8f,
                                ;
                                assert(valid_first_scalar(rem));
                                assert(length_of_first_scalar(rem) == 4);
                                assert(pop_first_scalar(rem) =~= all.skip(pos + 4));
                            }
                            let c = char_of_scalar(cp);
                            proof {
                                char_u32_cast(c, cp);
                                assert(utf8_parse(rem).0 =~= seq![c] + utf8_parse(
                                    all.skip(pos + 4),
                                ).0);
                            }
                            out.push(c);
                            pos = pos + 4;
                        } else {
                            proof {
                                lemma_bad_continuation(rem, 3);
                            }
                            status = 2;
                        }
                    }
                }
            }
        } else {
            // 0x80..=0xc1 or 0xf5..=0xff: no completion is ever valid
            proof {
                lemma_bad_lead(rem);
            }
            status = 2;
        }
    }
    let mut tail: Vec<u8> = Vec::new();
    let mut i: usize = pos;
    while i < buf.len()
        invariant
            pos <= i <= buf@.len(),
            buf@ == all,
            tail@ == all.subrange(pos as int, i as int),
        decreases buf@.len() - i,
    {
        tail.push(buf[i]);
        proof {
            assert(all.subrange(pos as int, i + 1) =~= all.subrange(pos as int, i as int) + seq![
                all[i as int],
            ]);
        }
        i = i + 1;
    }
    proof {
        assert(tail@ =~= all.skip(pos as int));
    }
    *pending = tail;
    let ok = status != 2;
    proof {
        let rem = all.skip(pos as int);
        if status == 0 {
            assert(rem.len() == 0);
            assert(utf8_parse(rem).0 == Seq::<char>::empty());
            assert(utf8_parse(rem).1 == Seq::<u8>::empty());
            assert(utf8_parse(rem).2);
            assert(tail@ =~= Seq::<u8>::empty());
        } else if status == 1 {
            assert(!valid_first_scalar(rem) && is_incomplete_prefix(rem) && rem.len() > 0);
            assert(utf8_parse(rem).0 == Seq::<char>::empty());
            assert(utf8_parse(rem).1 == rem);
            assert(utf8_parse(rem).2);
        } else {
            assert(status == 2);
            assert(!valid_first_scalar(rem) && !is_incomplete_prefix(rem) && rem.len() > 0);
            assert(utf8_parse(rem).0 == Seq::<char>::empty());
            assert(utf8_parse(rem).1 == rem);
            assert(!utf8_parse(rem).2);
        }
        assert(out@ + Seq::<char>::empty() =~= out@);
        assert(utf8_parse(all).0 == out@);
    }
    (out, ok)
}

/// Encoding distributes over concatenation of character sequences.
pub proof fn lemma_encode_utf8_append(a: Seq<char>, b: Seq<char>)
    ensures
        encode_utf8(a + b) == encode_utf8(a) + encode_utf8(b),
    decreases a.len(),
{
    if a.len() == 0 {
        assert(a + b =~= b);
        assert(encode_utf8(a) + encode_utf8(b) =~= encode_utf8(b));
    } else {
        assert((a + b).drop_first() =~= a.drop_first() + b);
        lemma_encode_utf8_append(a.drop_first(), b);
        assert(encode_utf8(a + b) =~= encode_scalar(a[0] as u32) + (encode_utf8(a.drop_first())
            + encode_utf8(b)));
        assert(encode_utf8(a) + encode_utf8(b) =~= encode_scalar(a[0] as u32) + (encode_utf8(
            a.drop_first(),
        ) + encode_utf8(b)));
    }
}

/// Appends the UTF-8 encoding of one character.
pub fn encode_char_push(out: &mut Vec<u8>, c: char)
    ensures
        final(out)@ == old(out)@ + encode_scalar(c as u32),
{
    let v: u32 = c as u32;
    proof {
        char_is_scalar(c);
    }
    if v <= 0x7f {
        out.push((v & 0x7f) as u8);
        proof {
            assert(out@ =~= old(out)@ + seq![leading_byte_width_1(v)]);
        }
    } else if v <= 0x7ff {
        out.push(0xC0 | (((v >> 6u32) & 0x1F) as u8));
        out.push(0x80 | ((v & 0x3F) as u8));
        proof {
            assert(out@ =~= old(out)@ + seq![
                leading_byte_width_2(v),
                last_continuation_byte(v),
            ]);
        }
    } else if v <= 0xffff {
        out.push(0xE0 | (((v >> 12u32) & 0x0F) as u8));
        out.push(0x80 | (((v >> 6u32) & 0x3F) as u8));
        out.push(0x80 | ((v & 0x3F) as u8));
        proof {
            assert(out@ =~= old(out)@ + seq![
                leading_byte_width_3(v),
                second_last_continuation_byte(v),
                last_continuation_byte(v),
            ]);
        }
    } else {
        out.push(0xF0 | (((v >> 18u32) & 0x7) as u8));
        out.push(0x80 | (((v >> 12u32) & 0x3F) as u8));
        out.push(0x80 | (((v >> 6u32) & 0x3F) as u8));
        out.push(0x80 | ((v & 0x3F) as u8));
        proof {
            assert(out@ =~= old(out)@ + seq![
                leading_byte_width_4(v),
                third_last_continuation_byte(v),
                second_last_continuation_byte(v),
                last_continuation_byte(v),
            ]);
        }
    }
}

/// Appends the UTF-8 encoding of a character sequence.
pub fn encode_chars_push(out: &mut Vec<u8>, chars: &Vec<char>)
    ensures
        final(out)@ == old(out)@ + encode_utf8(chars@),
{
    let mut i: usize = 0;
    while i < chars.len()
        invariant
            i <= chars@.len(),
            out@ == old(out)@ + encode_utf8(chars@.take(i as int)),
        decreases chars@.len() - i,
    {
        let ghost pre = out@;
        encode_char_push(out, chars[i]);
        proof {
            assert(chars@.take(i + 1) =~= chars@.take(i as int) + seq![chars@[i as int]]);
            lemma_encode_utf8_append(chars@.take(i as int), seq![chars@[i as int]]);
            assert(seq![chars@[i as int]].drop_first() =~= Seq::<char>::empty());
            assert(encode_utf8(Seq::<char>::empty()) =~= Seq::<u8>::empty());
            assert(encode_utf8(seq![chars@[i as int]]) =~= encode_scalar(chars@[i as int] as u32)
                + Seq::<u8>::empty());
            assert(encode_scalar(chars@[i as int] as u32) + Seq::<u8>::empty() =~= encode_scalar(
                chars@[i as int] as u32,
            ));
            assert(out@ =~= old(out)@ + encode_utf8(chars@.take(i + 1)));
        }
        i = i + 1;
    }
    proof {
        assert(chars@.take(chars@.len() as int) =~= chars@);
    }
}

/// With too few bytes for its leading byte's width, the remainder is not a
/// valid first scalar.
proof fn lemma_not_valid_short(rem: Seq<u8>, w: int)
    requires
        rem.len() > 0,
        w == 2 ==> 0xc2 <= rem[0] <= 0xdf && rem.len() < 2,
        w == 3 ==> 0xe0 <= rem[0] <= 0xef && rem.len() < 3,
        w == 4 ==> 0xf0 <= rem[0] <= 0xf4 && rem.len() < 4,
        w == 3 && rem.len() == 2 ==> valid_second_byte(rem[0], rem[1]),
        w == 4 && rem.len() == 2 ==> valid_second_byte(rem[0], rem[1]),
        w == 4 && rem.len() == 3 ==> valid_second_byte(rem[0], rem[1]) && is_continuation_byte(
            rem[2],
        ),
        w == 2 || w == 3 || w == 4,
    ensures
        !valid_first_scalar(rem),
        is_incomplete_prefix(rem),
{
}

/// A continuation slot holding a non-continuation byte can never be mended.
proof fn lemma_bad_continuation(rem: Seq<u8>, at: int)
    requires
        rem.len() > at,
        1 <= at <= 3,
        at == 1 ==> 0xc2 <= rem[0] <= 0xdf,
        at == 2 ==> (0xe0 <= rem[0] <= 0xef || 0xf0 <= rem[0] <= 0xf4) && valid_second_byte(
            rem[0],
            rem[1],
        ),
        at == 3 ==> 0xf0 <= rem[0] <= 0xf4 && valid_second_byte(rem[0], rem[1])
            && is_continuation_byte(rem[2]),
        !is_continuation_byte(rem[at]),
    ensures
        !valid_first_scalar(rem),
        !is_incomplete_prefix(rem),
{
}

/// A second byte outside the completable range of a 3-byte lead (overlong or
/// surrogate territory) is a hard error.
proof fn lemma_bad_second_byte_3(rem: Seq<u8>)
    requires
        rem.len() >= 2,
        0xe0 <= rem[0] <= 0xef,
        !valid_second_byte(rem[0], rem[1]),
    ensures
        !valid_first_scalar(rem),
        !is_incomplete_prefix(rem),
{
    let b0 = rem[0];
    let b1 = rem[1];
    if valid_first_scalar(rem) {
        let cp = decode_first_codepoint(rem);
        assert(rem.len() >= 3);
        let b2 = rem[2];
        assert(cp == codepoint_width_3(b0, b1, b2));
        assert((0xe0 <= b0 <= 0xef && 0x80 <= b1 <= 0xbf && 0x800 <= cp && !(0xd800 <= cp
            <= 0xdfff)) ==> valid_second_byte(b0, b1)) by (bit_vector)
            requires
                cp == (((b0 & 0x0f) as u32) << 12) | (((b1 & 0x3f) as u32) << 6) | (b2 & 0x3f) as u32,
        ;
        assert(false);
    }
}

/// A second byte outside the completable range of a 4-byte lead (overlong or
/// beyond the last codepoint) is a hard error.
proof fn lemma_bad_second_byte_4(rem: Seq<u8>)
    requires
        rem.len() >= 2,
        0xf0 <= rem[0] <= 0xf4,
        !valid_second_byte(rem[0], rem[1]),
    ensures
        !valid_first_scalar(rem),
        !is_incomplete_prefix(rem),
{
    let b0 = rem[0];
    let b1 = rem[1];
    if valid_first_scalar(rem) {
        let cp = decode_first_codepoint(rem);
        assert(rem.len() >= 4);
        let b2 = rem[2];
        let b3 = rem[3];
        assert(cp == codepoint_width_4(b0, b1, b2, b3));
        assert((0xf0 <= b0 <= 0xf4 && 0x80 <= b1 <= 0xbf && 0x10000 <= cp <= 0x10ffff)
            ==> valid_second_byte(b0, b1)) by (bit_vector)
            requires
                cp == (((b0 & 0x07) as u32) << 18) | (((b1 & 0x3f) as u32) << 12) | (((b2 & 0x3f) as u32) << 6) | (b3 & 0x3f) as u32,
        ;
        assert(false);
    }
}

/// A byte that can lead nothing: a bare continuation byte, an overlong lead
/// (0xc0, 0xc1), or a lead beyond the last codepoint (0xf5..).
proof fn lemma_bad_lead(rem: Seq<u8>)
    requires
        rem.len() > 0,
        !(rem[0] < 0x80),
        !(0xc2 <= rem[0] <= 0xdf),
        !(0xe0 <= rem[0] <= 0xef),
        !(0xf0 <= rem[0] <= 0xf4),
    ensures
        !valid_first_scalar(rem),
        !is_incomplete_prefix(rem),
{
    let b0 = rem[0];
    if valid_first_scalar(rem) {
        let cp = decode_first_codepoint(rem);
        if is_leading_byte_width_2(b0) {
            // 0xc0 and 0xc1 give codepoints below 0x80: overlong
            let b1 = rem[1];
            assert(cp == codepoint_width_2(b0, b1));
            assert(0xc0 <= b0 <= 0xc1 ==> cp < 0x80) by (bit_vector)
                requires
                    cp == (((b0 & 0x1f) as u32) << 6) | (b1 & 0x3f) as u32,
            ;
        } else if is_leading_byte_width_4(b0) {
            // 0xf5..=0xf7 give codepoints beyond 0x10ffff
            let b1 = rem[1];
            let b2 = rem[2];
            let b3 = rem[3];
            assert(cp == codepoint_width_4(b0, b1, b2, b3));
            assert(0xf5 <= b0 <= 0xf7 ==> cp > 0x10ffff) by (bit_vector)
                requires
                    cp == (((b0 & 0x07) as u32) << 18) | (((b1 & 0x3f) as u32) << 12) | (((b2 & 0x3f) as u32) << 6) | (b3 & 0x3f) as u32,
            ;
        }
        assert(false);
    }
}

} // verus!
