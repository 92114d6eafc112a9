//! The driver: wires the escape filter, the incremental UTF-8 decoder, the
//! cluster segmenter and a colorizer into one streaming session. Input bytes
//! are fed in arbitrarily sized chunks; the output bytes returned from each
//! call interleave color escape sequences (only where the color changed) with
//! the clusters' own bytes, and finishing always appends the terminal reset
//! sequence exactly once.

use vstd::prelude::*;
use vstd::utf8::encode_utf8;

use crate::colorizer::ColorCode;
use crate::colorizer::Colorizer;
use crate::colorizer::color_escape;
use crate::colorizer::push_color_escape;
use crate::colorizer::reset_seq;
use crate::colorizer::TerminalResetter;
use crate::decode::decode_chunk;
use crate::decode::encode_chars_push;
use crate::decode::lemma_parse_append;
use crate::decode::utf8_parse;
use crate::filter::EscapeSkipper;
use crate::filter::esc_filter;
use crate::filter::esc_state;
use crate::filter::lemma_esc_filter_append;
use crate::flag::Flag;
use crate::segment::clusters_of;
use crate::segment::segment_clusters;

verus! {

/// Whether a cluster is the single line-feed character, the one cluster that
/// advances the line counter instead of the column.
pub open spec fn is_newline_cluster(cl: Seq<char>) -> bool {
    cl == seq!['\n']
}

/// The colorizer state after advancing once per cluster.
pub open spec fn state_after<C: Colorizer>(c: C, cls: Seq<Seq<char>>) -> C
    decreases cls.len(),
{
    if cls.len() == 0 {
        c
    } else {
        state_after(c.advanced(is_newline_cluster(cls[0])), cls.drop_first())
    }
}

/// The "previously emitted color" register after rendering the clusters.
pub open spec fn prev_after<C: Colorizer>(
    c: C,
    flag: Flag,
    prev: Option<ColorCode>,
    cls: Seq<Seq<char>>,
) -> Option<ColorCode>
    decreases cls.len(),
{
    if cls.len() == 0 {
        prev
    } else {
        let c2 = c.advanced(is_newline_cluster(cls[0]));
        prev_after(c2, flag, Some(c2.code_spec(&flag)), cls.drop_first())
    }
}

/// The bytes the driver writes for a cluster sequence: for each cluster, the
/// escape sequence of its color — suppressed when it equals the color
/// emitted last — followed by the cluster's own UTF-8 bytes.
pub open spec fn render<C: Colorizer>(
    c: C,
    flag: Flag,
    prev: Option<ColorCode>,
    cls: Seq<Seq<char>>,
) -> Seq<u8>
    decreases cls.len(),
{
    if cls.len() == 0 {
        seq![]
    } else {
        let c2 = c.advanced(is_newline_cluster(cls[0]));
        let code = c2.code_spec(&flag);
        let esc: Seq<u8> = if prev == Some(code) {
            seq![]
        } else {
            color_escape(code)
        };
        esc + encode_utf8(cls[0]) + render(c2, flag, Some(code), cls.drop_first())
    }
}

/// Rendering is a fold: rendering a concatenation renders the first part,
/// then the second from the state and register the first part left behind.
pub proof fn lemma_render_append<C: Colorizer>(
    c: C,
    flag: Flag,
    prev: Option<ColorCode>,
    a: Seq<Seq<char>>,
    b: Seq<Seq<char>>,
)
    ensures
        state_after(c, a + b) == state_after(state_after(c, a), b),
        prev_after(c, flag, prev, a + b) == prev_after(
            state_after(c, a),
            flag,
            prev_after(c, flag, prev, a),
            b,
        ),
        render(c, flag, prev, a + b) == render(c, flag, prev, a) + render(
            state_after(c, a),
            flag,
            prev_after(c, flag, prev, a),
            b,
        ),
    decreases a.len(),
{
    if a.len() == 0 {
        assert(a + b =~= b);
        assert(render(c, flag, prev, a) + render(c, flag, prev, b) =~= render(c, flag, prev, b));
    } else {
        let nl = is_newline_cluster(a[0]);
        let c2 = c.advanced(nl);
        let code = c2.code_spec(&flag);
        assert((a + b).drop_first() =~= a.drop_first() + b);
        lemma_render_append(c2, flag, Some(code), a.drop_first(), b);
        let esc: Seq<u8> = if prev == Some(code) {
            seq![]
        } else {
            color_escape(code)
        };
        assert(render(c, flag, prev, a + b) =~= esc + encode_utf8(a[0]) + (render(
            c2,
            flag,
            Some(code),
            a.drop_first(),
        ) + render(
            state_after(c2, a.drop_first()),
            flag,
            prev_after(c2, flag, Some(code), a.drop_first()),
            b,
        )));
        assert(render(c, flag, prev, a) + render(
            state_after(c, a),
            flag,
            prev_after(c, flag, prev, a),
            b,
        ) =~= esc + encode_utf8(a[0]) + (render(c2, flag, Some(code), a.drop_first()) + render(
            state_after(c2, a.drop_first()),
            flag,
            prev_after(c2, flag, Some(code), a.drop_first()),
            b,
        )));
    }
}

/// `compat` is preserved along any cluster sequence.
pub proof fn lemma_state_after_compat<C: Colorizer>(c: C, flag: &Flag, cls: Seq<Seq<char>>)
    requires
        c.compat(flag),
    ensures
        state_after(c, cls).compat(flag),
    decreases cls.len(),
{
    if cls.len() > 0 {
        c.compat_preserved(is_newline_cluster(cls[0]), flag);
        lemma_state_after_compat(c.advanced(is_newline_cluster(cls[0])), flag, cls.drop_first());
    }
}

/// Unfolding of the fold functions on a single cluster.
pub proof fn lemma_render_singleton<C: Colorizer>(
    c: C,
    flag: Flag,
    prev: Option<ColorCode>,
    cl: Seq<char>,
)
    ensures
        state_after(c, seq![cl]) == c.advanced(is_newline_cluster(cl)),
        prev_after(c, flag, prev, seq![cl]) == Some(
            c.advanced(is_newline_cluster(cl)).code_spec(&flag),
        ),
        render(c, flag, prev, seq![cl]) == ({
            let c2 = c.advanced(is_newline_cluster(cl));
            let code = c2.code_spec(&flag);
            let esc: Seq<u8> = if prev == Some(code) {
                seq![]
            } else {
                color_escape(code)
            };
            esc + encode_utf8(cl)
        }),
{
    let single: Seq<Seq<char>> = seq![cl];
    assert(single[0] == cl);
    assert(single.drop_first() =~= Seq::<Seq<char>>::empty());
    let c2 = c.advanced(is_newline_cluster(cl));
    let code = c2.code_spec(&flag);
    assert(state_after(c2, Seq::<Seq<char>>::empty()) == c2);
    assert(prev_after(c2, flag, Some(code), Seq::<Seq<char>>::empty()) == Some(code));
    assert(render(c2, flag, Some(code), Seq::<Seq<char>>::empty()) =~= Seq::<u8>::empty());
    let esc: Seq<u8> = if prev == Some(code) {
        seq![]
    } else {
        color_escape(code)
    };
    assert(render(c, flag, prev, single) =~= esc + encode_utf8(cl));
}

/// The decoded characters of everything fed so far: the input, with embedded
/// escape sequences stripped, decoded up to an incomplete tail or an error.
pub open spec fn session_chars(fed: Seq<u8>) -> Seq<char> {
    utf8_parse(esc_filter(fed, false)).0
}

/// The clusters a session has emitted after consuming `fed`: every cluster of
/// the decoded characters but the last, which may still grow with more input.
pub open spec fn session_clusters(fed: Seq<u8>) -> Seq<Seq<char>> {
    let chars = session_chars(fed);
    if chars.len() == 0 {
        Seq::<Seq<char>>::empty()
    } else {
        clusters_of(chars).drop_last()
    }
}

/// The bytes a session has written after consuming `fed` — a function of the
/// configuration and the concatenation of all chunks alone, however the input
/// was split.
pub open spec fn session_out<C: Colorizer>(c0: C, flag: Flag, fed: Seq<u8>) -> Seq<u8> {
    render(c0, flag, None, session_clusters(fed))
}

/// The complete output of a finished run over `fed`: every cluster of the
/// decoded characters is rendered — including the held last one, whether or
/// not the input ended cleanly — and the terminal reset sequence ends the
/// output. Bytes after a hard decode error, and a dangling incomplete
/// encoding at end of input, contribute no clusters.
pub open spec fn cat_out<C: Colorizer>(c0: C, flag: Flag, fed: Seq<u8>) -> Seq<u8> {
    let p = utf8_parse(esc_filter(fed, false));
    let cls = if p.0.len() == 0 {
        Seq::<Seq<char>>::empty()
    } else {
        clusters_of(p.0)
    };
    render(c0, flag, None, cls) + reset_seq()
}

/// Appends one character vector to another.
fn extend_chars(dst: &mut Vec<char>, src: &Vec<char>)
    ensures
        final(dst)@ == old(dst)@ + src@,
{
    let mut i: usize = 0;
    while i < src.len()
        invariant
            i <= src@.len(),
            dst@ == old(dst)@ + src@.take(i as int),
        decreases src@.len() - i,
    {
        dst.push(src[i]);
        proof {
            assert(src@.take(i + 1) =~= src@.take(i as int) + seq![src@[i as int]]);
            assert(old(dst)@ + src@.take(i + 1) =~= (old(dst)@ + src@.take(i as int)) + seq![
                src@[i as int],
            ]);
        }
        i = i + 1;
    }
    proof {
        assert(src@.take(src@.len() as int) =~= src@);
    }
}

/// One streaming colorizing session: feed it chunks of raw bytes, write out
/// the bytes each call returns, and finish it to obtain the trailing bytes
/// (always ending in the terminal reset sequence).
pub struct QueerCat<C: Colorizer> {
    colorizer: C,
    flag: Flag,
    prev: Option<ColorCode>,
    skipper: EscapeSkipper,
    pending: Vec<u8>,
    held: Vec<char>,
    failed: bool,
    init: Ghost<C>,
    fed: Ghost<Seq<u8>>,
}

impl<C: Colorizer> QueerCat<C> {
    /// Everything fed so far.
    pub closed spec fn history(self) -> Seq<u8> {
        self.fed@
    }

    /// The colorizer the session was built with.
    pub closed spec fn initial(self) -> C {
        self.init@
    }

    /// The session's flag.
    pub closed spec fn flag_spec(self) -> Flag {
        self.flag
    }

    /// The session invariant: each component's state is exactly what the spec
    /// pipeline prescribes for the bytes fed so far.
    pub closed spec fn wf(self) -> bool {
        let f = esc_filter(self.fed@, false);
        let p = utf8_parse(f);
        &&& self.flag.wf()
        &&& self.init@.compat(&self.flag)
        &&& self.colorizer.compat(&self.flag)
        &&& self.skipper.in_esc() == esc_state(self.fed@, false)
        &&& self.failed == !p.2
        &&& self.pending@ == p.1
        &&& (p.0.len() == 0 ==> self.held@.len() == 0)
        &&& (p.0.len() > 0 ==> {
            &&& clusters_of(p.0).len() > 0
            &&& self.held@ == clusters_of(p.0).last()
            &&& self.held@.len() > 0
            &&& clusters_of(self.held@) == seq![self.held@]
            &&& forall|t: Seq<char>|
                #[trigger] clusters_of(p.0 + t) == clusters_of(p.0).drop_last() + clusters_of(
                    self.held@ + t,
                )
        })
        &&& self.colorizer == state_after(self.init@, session_clusters(self.fed@))
        &&& self.prev == prev_after(
            self.init@,
            self.flag,
            None::<ColorCode>,
            session_clusters(self.fed@),
        )
    }

    /// A fresh session around a colorizer and its flag.
    pub fn new(colorizer: C, flag: Flag) -> (r: Self)
        requires
            colorizer.compat(&flag),
            flag.wf(),
        ensures
            r.wf(),
            r.history() == Seq::<u8>::empty(),
            r.initial() == colorizer,
            r.flag_spec() == flag,
    {
        let ghost c0 = colorizer;
        let r = QueerCat {
            colorizer,
            flag,
            prev: None,
            skipper: EscapeSkipper::new(),
            pending: Vec::new(),
            held: Vec::new(),
            failed: false,
            init: Ghost(c0),
            fed: Ghost(Seq::<u8>::empty()),
        };
        proof {
            let fed = Seq::<u8>::empty();
            assert(esc_filter(fed, false) =~= Seq::<u8>::empty());
            assert(esc_state(fed, false) == false);
            assert(utf8_parse(Seq::<u8>::empty()).0 =~= Seq::<char>::empty());
            assert(session_clusters(fed) =~= Seq::<Seq<char>>::empty());
        }
        r
    }

    /// Consumes one chunk of raw input and returns the bytes to write for it.
    /// The cumulative output is a function of the concatenated input alone:
    /// however the same bytes are split into chunks, the same bytes come out.
    /// The returned flag is false once the input has hit a hard decode error.
    pub fn feed(&mut self, chunk: &[u8]) -> (r: (Vec<u8>, bool))
        requires
            old(self).wf(),
        ensures
            final(self).wf(),
            final(self).history() == old(self).history() + chunk@,
            final(self).initial() == old(self).initial(),
            final(self).flag_spec() == old(self).flag_spec(),
            session_out(old(self).initial(), old(self).flag_spec(), old(self).history() + chunk@)
                == session_out(old(self).initial(), old(self).flag_spec(), old(self).history())
                + r.0@,
            r.1 == utf8_parse(esc_filter(old(self).history() + chunk@, false)).2,
    {
        let ghost fed0 = self.fed@;
        let ghost fed1 = fed0 + chunk@;
        let ghost f0 = esc_filter(fed0, false);
        let ghost p0 = utf8_parse(f0);
        let ghost c_init = self.init@;
        let ghost flag0 = self.flag;
        let ghost chars0 = p0.0;

        let filtered = self.skipper.filter_chunk(chunk);
        proof {
            lemma_esc_filter_append(fed0, chunk@, false);
        }
        let ghost f1 = esc_filter(fed1, false);
        let ghost p1 = utf8_parse(f1);
        proof {
            assert(f1 == f0 + filtered@);
            lemma_parse_append(f0, filtered@);
        }
        let (new_chars, ok) = decode_chunk(&mut self.pending, filtered.as_slice());
        self.failed = !ok;
        self.fed = Ghost(fed1);
        let ghost delta = new_chars@;
        let ghost chars1 = p1.0;
        proof {
            assert(chars1 == chars0 + delta);
        }

        let mut out: Vec<u8> = Vec::new();
        if new_chars.len() == 0 {
            proof {
                assert(chars1 =~= chars0);
                assert(session_clusters(fed1) == session_clusters(fed0));
                assert(session_out(c_init, flag0, fed1) =~= session_out(c_init, flag0, fed0)
                    + out@);
            }
            return (out, ok);
        }

        let ghost held0 = self.held@;
        extend_chars(&mut self.held, &new_chars);
        let ghost held1 = self.held@;
        proof {
            assert(held1 == held0 + delta);
            if chars0.len() == 0 {
                assert(held0.len() == 0);
                assert(held1 =~= delta);
                assert(chars1 =~= delta);
                assert(chars1 =~= held1);
            }
        }
        let mut clusters = segment_clusters(&self.held);
        let ghost seg = clusters.deep_view();
        proof {
            // Relate the segmentation of the held characters to the
            // segmentation of all decoded characters.
            if chars0.len() == 0 {
                assert(clusters_of(chars1) == seg);
            } else {
                // instantiating the stored continuation fact at `delta`
                assert(chars0 + delta =~= chars1);
                assert(clusters_of(chars1) == clusters_of(chars0).drop_last() + clusters_of(
                    held1,
                ));
                assert(clusters_of(held1) == seg);
            }
        }
        let last = clusters.pop().unwrap();
        let ghost emitted = clusters.deep_view();
        proof {
            assert(seg.len() > 0);
            assert(emitted =~= seg.drop_last());
            assert(last@ == seg.last());
        }

        // Render the complete clusters.
        let ghost c_start = self.colorizer;
        let ghost prev_start = self.prev;
        let mut i: usize = 0;
        while i < clusters.len()
            invariant
                i <= emitted.len(),
                clusters.deep_view() == emitted,
                self.flag == flag0,
                flag0.wf(),
                self.fed@ == fed1,
                self.init@ == c_init,
                self.pending@ == p1.1,
                self.skipper.in_esc() == esc_state(fed1, false),
                self.failed == !p1.2,
                self.held@ == held1,
                self.colorizer == state_after(c_start, emitted.take(i as int)),
                self.prev == prev_after(c_start, flag0, prev_start, emitted.take(i as int)),
                self.colorizer.compat(&self.flag),
                out@ == render(c_start, flag0, prev_start, emitted.take(i as int)),
            decreases emitted.len() - i,
        {
            let cl = &clusters[i];
            proof {
                assert(cl@ == emitted[i as int]);
                assert(emitted.take(i + 1) =~= emitted.take(i as int) + seq![emitted[i as int]]);
                lemma_render_append(
                    c_start,
                    flag0,
                    prev_start,
                    emitted.take(i as int),
                    seq![emitted[i as int]],
                );
            }
            let newline: bool = cl.len() == 1 && cl[0] == '\n';
            proof {
                if newline {
                    assert(cl@ =~= seq!['\n']);
                } else {
                    assert(cl@ != seq!['\n']) by {
                        if cl@ =~= seq!['\n'] {
                            assert(cl@.len() == 1 && cl@[0] == '\n');
                        }
                    }
                }
            }
            let ghost cstate = self.colorizer;
            let ghost pstate = self.prev;
            let code = self.colorizer.advance(newline, &self.flag);
            let suppress: bool = match self.prev {
                Some(p) => p == code,
                None => false,
            };
            if !suppress {
                push_color_escape(&mut out, code);
            }
            self.prev = Some(code);
            encode_chars_push(&mut out, cl);
            proof {
                lemma_render_singleton(cstate, flag0, pstate, emitted[i as int]);
                assert(self.colorizer == cstate.advanced(is_newline_cluster(emitted[i as int])));
                assert(self.colorizer == state_after(c_start, emitted.take(i + 1)));
                assert(self.prev == prev_after(c_start, flag0, prev_start, emitted.take(i + 1)));
                cstate.compat_preserved(is_newline_cluster(emitted[i as int]), &self.flag);
                assert(out@ =~= render(c_start, flag0, prev_start, emitted.take(i + 1)));
            }
            i = i + 1;
        }
        proof {
            assert(emitted.take(emitted.len() as int) =~= emitted);
        }
        self.held = last;

        proof {
            // The held cluster and the continuation fact for the new state.
            let sc0 = session_clusters(fed0);
            let sc1 = session_clusters(fed1);
            assert(clusters_of(chars1).len() > 0);
            assert(self.held@ == clusters_of(chars1).last());
            if chars0.len() == 0 {
                assert(sc0 =~= Seq::<Seq<char>>::empty());
                assert(sc1 == clusters_of(chars1).drop_last());
                assert(sc1 =~= emitted);
                assert(sc0 + emitted =~= emitted);
            } else {
                assert(sc0 == clusters_of(chars0).drop_last());
                assert(clusters_of(chars1) =~= sc0 + seg);
                assert(clusters_of(chars1).drop_last() =~= sc0 + emitted);
                assert(sc1 == sc0 + emitted);
            }
            // new continuation fact
            assert forall|t: Seq<char>|
                #[trigger] clusters_of(chars1 + t) == clusters_of(chars1).drop_last()
                    + clusters_of(self.held@ + t) by {
                if chars0.len() == 0 {
                    assert(chars1 + t =~= held1 + t);
                    assert(clusters_of(held1 + t) == seg.drop_last() + clusters_of(
                        seg.last() + t,
                    ));
                    assert(clusters_of(chars1).drop_last() =~= seg.drop_last());
                } else {
                    assert(chars0 + (delta + t) =~= chars1 + t);
                    assert(clusters_of(chars0 + (delta + t)) == clusters_of(
                        chars0,
                    ).drop_last() + clusters_of(held1 + t)) by {
                        assert(held0 + (delta + t) =~= held1 + t);
                    }
                    assert(clusters_of(held1 + t) == seg.drop_last() + clusters_of(
                        seg.last() + t,
                    ));
                    assert(clusters_of(chars1).drop_last() =~= clusters_of(chars0).drop_last()
                        + seg.drop_last());
                    assert(clusters_of(chars1 + t) =~= (clusters_of(chars0).drop_last()
                        + seg.drop_last()) + clusters_of(self.held@ + t));
                }
            }
            // render accounting
            let sc0 = session_clusters(fed0);
            let sc1 = session_clusters(fed1);
            lemma_render_append(c_init, flag0, None::<ColorCode>, sc0, emitted);
            assert(sc1 =~= sc0 + emitted);
            assert(session_out(c_init, flag0, fed1) =~= session_out(c_init, flag0, fed0) + out@);
        }
        (out, ok)
    }

    /// Ends the session: flushes the held final cluster (whatever state the
    /// input ended in) and always appends the terminal reset sequence. A
    /// dangling incomplete encoding at end of input is dropped silently; the
    /// returned flag is false only when the input hit a hard decode error.
    pub fn finish(self) -> (r: (Vec<u8>, bool))
        requires
            self.wf(),
        ensures
            session_out(self.initial(), self.flag_spec(), self.history()) + r.0@ == cat_out(
                self.initial(),
                self.flag_spec(),
                self.history(),
            ),
            r.0@.len() >= 4 && r.0@.skip(r.0@.len() - 4) == reset_seq(),
            r.1 == utf8_parse(esc_filter(self.history(), false)).2,
    {
        let ghost fed = self.fed@;
        let ghost f = esc_filter(fed, false);
        let ghost p = utf8_parse(f);
        let ghost c_init = self.init@;
        let ghost flag0 = self.flag;
        let mut s = self;
        let decoded_ok = !s.failed;
        let mut out: Vec<u8> = Vec::new();
        let ghost sc = session_clusters(fed);
        if s.held.len() > 0 {
            let cl = s.held;
            proof {
                assert(p.0.len() > 0) by {
                    if p.0.len() == 0 {
                        assert(cl@.len() == 0);
                    }
                }
                assert(clusters_of(p.0) =~= sc + seq![cl@]) by {
                    assert(clusters_of(p.0).drop_last() =~= sc);
                    assert(clusters_of(p.0).last() == cl@);
                    assert(clusters_of(p.0) =~= clusters_of(p.0).drop_last() + seq![
                        clusters_of(p.0).last(),
                    ]);
                }
                lemma_render_append(c_init, flag0, None::<ColorCode>, sc, seq![cl@]);
            }
            let newline: bool = cl.len() == 1 && cl[0] == '\n';
            proof {
                if newline {
                    assert(cl@ =~= seq!['\n']);
                } else {
                    assert(cl@ != seq!['\n']) by {
                        if cl@ =~= seq!['\n'] {
                            assert(cl@.len() == 1 && cl@[0] == '\n');
                        }
                    }
                }
            }
            let ghost cstate = s.colorizer;
            let ghost pstate = s.prev;
            let code = s.colorizer.advance(newline, &s.flag);
            let suppress: bool = match s.prev {
                Some(pc) => pc == code,
                None => false,
            };
            if !suppress {
                push_color_escape(&mut out, code);
            }
            encode_chars_push(&mut out, &cl);
            proof {
                lemma_render_singleton(cstate, flag0, pstate, cl@);
                assert(out@ =~= render(cstate, flag0, pstate, seq![cl@]));
                assert(render(c_init, flag0, None::<ColorCode>, sc + seq![cl@]) =~= render(
                    c_init,
                    flag0,
                    None::<ColorCode>,
                    sc,
                ) + out@);
            }
        }
        let mut reset = TerminalResetter::reset_bytes();
        let ghost body = out@;
        let mut k: usize = 0;
        while k < reset.len()
            invariant
                k <= reset@.len(),
                reset@ == reset_seq(),
                out@ == body + reset@.take(k as int),
            decreases reset@.len() - k,
        {
            out.push(reset[k]);
            proof {
                assert(reset@.take(k + 1) =~= reset@.take(k as int) + seq![reset@[k as int]]);
                assert(body + reset@.take(k + 1) =~= (body + reset@.take(k as int)) + seq![
                    reset@[k as int],
                ]);
            }
            k = k + 1;
        }
        proof {
            assert(reset@.take(reset@.len() as int) =~= reset@);
            assert(out@ == body + reset_seq());
            let cls = if p.0.len() == 0 {
                Seq::<Seq<char>>::empty()
            } else {
                clusters_of(p.0)
            };
            if p.0.len() > 0 {
                assert(render(c_init, flag0, None::<ColorCode>, cls) =~= render(
                    c_init,
                    flag0,
                    None::<ColorCode>,
                    sc,
                ) + body);
            } else {
                assert(body =~= Seq::<u8>::empty());
                assert(cls =~= sc);
                assert(render(c_init, flag0, None::<ColorCode>, cls) + Seq::<u8>::empty()
                    =~= render(c_init, flag0, None::<ColorCode>, cls));
            }
            assert(session_out(c_init, flag0, fed) + out@ =~= cat_out(c_init, flag0, fed));
            assert(out@.skip(out@.len() - 4) =~= reset_seq());
        }
        (out, decoded_ok)
    }

    /// Colorizes a whole input in one call: feeds it as a single chunk and
    /// finishes the session. The output always ends with the terminal reset
    /// sequence; the returned flag is false only when decoding hit a hard
    /// error (a dangling incomplete encoding at the end is dropped silently).
    pub fn cat(self, input: &[u8]) -> (r: (Vec<u8>, bool))
        requires
            self.wf(),
            self.history() == Seq::<u8>::empty(),
        ensures
            r.0@ == cat_out(self.initial(), self.flag_spec(), input@),
            r.0@.len() >= 4 && r.0@.skip(r.0@.len() - 4) == reset_seq(),
            r.1 == utf8_parse(esc_filter(input@, false)).2,
    {
        let ghost c_init = self.init@;
        let ghost flag0 = self.flag;
        let mut s = self;
        let (mut out, _ok) = s.feed(input);
        proof {
            assert(Seq::<u8>::empty() + input@ =~= input@);
            assert(esc_filter(Seq::<u8>::empty(), false) =~= Seq::<u8>::empty());
            assert(utf8_parse(Seq::<u8>::empty()).0 =~= Seq::<char>::empty());
            assert(session_clusters(Seq::<u8>::empty()) =~= Seq::<Seq<char>>::empty());
            assert(session_out(c_init, flag0, Seq::<u8>::empty()) =~= Seq::<u8>::empty());
            assert(Seq::<u8>::empty() + out@ =~= out@);
            assert(out@ == session_out(c_init, flag0, input@));
        }
        let (tail, ok) = s.finish();
        let ghost head = out@;
        let mut k: usize = 0;
        while k < tail.len()
            invariant
                k <= tail@.len(),
                out@ == head + tail@.take(k as int),
            decreases tail@.len() - k,
        {
            out.push(tail[k]);
            proof {
                assert(tail@.take(k + 1) =~= tail@.take(k as int) + seq![tail@[k as int]]);
                assert(head + tail@.take(k + 1) =~= (head + tail@.take(k as int)) + seq![
                    tail@[k as int],
                ]);
            }
            k = k + 1;
        }
        proof {
            assert(tail@.take(tail@.len() as int) =~= tail@);
            assert(out@ == head + tail@);
            assert(out@ =~= cat_out(c_init, flag0, input@));
            assert(out@.skip(out@.len() - 4) =~= tail@.skip(tail@.len() - 4));
        }
        (out, ok)
    }
}

} // verus!
