//! The escape-sequence filter: deletes every terminal escape sequence that is
//! already embedded in the input bytes, in a single forward pass with one
//! boolean of state. An escape sequence begins with the byte 0x1b and runs
//! through the first ASCII alphabetic byte, inclusive; a sequence still open
//! when the input ends is dropped silently.

use vstd::prelude::*;

verus! {

/// An ASCII letter, the byte class that terminates an escape sequence.
pub open spec fn is_ascii_alpha(b: u8) -> bool {
    (0x41 <= b <= 0x5a) || (0x61 <= b <= 0x7a)
}

/// The filter state after consuming one byte: `st` is true while inside an
/// escape sequence.
pub open spec fn esc_next(st: bool, b: u8) -> bool {
    if st {
        !is_ascii_alpha(b)
    } else {
        b == 0x1b
    }
}

/// Whether a byte survives the filter in state `st`.
pub open spec fn esc_keep(st: bool, b: u8) -> bool {
    !st && b != 0x1b
}

/// The bytes that survive the filter, starting in state `st`.
pub open spec fn esc_filter(s: Seq<u8>, st: bool) -> Seq<u8>
    decreases s.len(),
{
    if s.len() == 0 {
        seq![]
    } else {
        let head: Seq<u8> = if esc_keep(st, s[0]) {
            seq![s[0]]
        } else {
            seq![]
        };
        head + esc_filter(s.drop_first(), esc_next(st, s[0]))
    }
}

/// The filter state after consuming all of `s`, starting in state `st`.
pub open spec fn esc_state(s: Seq<u8>, st: bool) -> bool
    decreases s.len(),
{
    if s.len() == 0 {
        st
    } else {
        esc_state(s.drop_first(), esc_next(st, s[0]))
    }
}

/// One byte of filtering, as a fact about the spec fold.
pub proof fn lemma_esc_single(b: u8, st: bool)
    ensures
        esc_state(seq![b], st) == esc_next(st, b),
        esc_filter(seq![b], st) == if esc_keep(st, b) {
            seq![b]
        } else {
            Seq::<u8>::empty()
        },
{
    let single: Seq<u8> = seq![b];
    assert(single.drop_first() =~= Seq::<u8>::empty());
    assert(esc_state(Seq::<u8>::empty(), esc_next(st, b)) == esc_next(st, b));
    assert(esc_filter(Seq::<u8>::empty(), esc_next(st, b)) =~= Seq::<u8>::empty());
    if esc_keep(st, b) {
        assert(esc_filter(single, st) =~= seq![b]);
    } else {
        assert(esc_filter(single, st) =~= Seq::<u8>::empty());
    }
}

/// Filtering is a streaming fold: filtering a concatenation filters the first
/// part, then the second from the state the first part left behind.
pub proof fn lemma_esc_filter_append(a: Seq<u8>, b: Seq<u8>, st: bool)
    ensures
        esc_filter(a + b, st) == esc_filter(a, st) + esc_filter(b, esc_state(a, st)),
        esc_state(a + b, st) == esc_state(b, esc_state(a, st)),
    decreases a.len(),
{
    if a.len() == 0 {
        assert(a + b =~= b);
        assert(esc_filter(a, st) + esc_filter(b, st) =~= esc_filter(b, st));
    } else {
        let rest = a.drop_first();
        assert((a + b).drop_first() =~= rest + b);
        lemma_esc_filter_append(rest, b, esc_next(st, a[0]));
        let head: Seq<u8> = if esc_keep(st, a[0]) {
            seq![a[0]]
        } else {
            seq![]
        };
        assert(esc_filter(a + b, st) =~= head + (esc_filter(rest, esc_next(st, a[0])) + esc_filter(
            b,
            esc_state(a, st),
        )));
        assert(esc_filter(a, st) + esc_filter(b, esc_state(a, st)) =~= head + (esc_filter(
            rest,
            esc_next(st, a[0]),
        ) + esc_filter(b, esc_state(a, st))));
    }
}

/// No escape byte ever survives the filter.
pub proof fn lemma_esc_filter_no_escape(s: Seq<u8>, st: bool)
    ensures
        forall|i: int| 0 <= i < esc_filter(s, st).len() ==> esc_filter(s, st)[i] != 0x1b,
    decreases s.len(),
{
    if s.len() > 0 {
        let rest = s.drop_first();
        let nst = esc_next(st, s[0]);
        lemma_esc_filter_no_escape(rest, nst);
        let head: Seq<u8> = if esc_keep(st, s[0]) {
            seq![s[0]]
        } else {
            seq![]
        };
        assert(esc_filter(s, st) == head + esc_filter(rest, nst));
        assert forall|i: int| 0 <= i < esc_filter(s, st).len() implies esc_filter(s, st)[i]
            != 0x1b by {
            if i < head.len() {
                assert(esc_filter(s, st)[i] == s[0]);
            } else {
                assert(esc_filter(s, st)[i] == esc_filter(rest, nst)[i - head.len()]);
            }
        }
    }
}

/// On input that holds no escape byte, the filter (outside a sequence) is the
/// identity.
pub proof fn lemma_esc_filter_clean(s: Seq<u8>)
    requires
        forall|i: int| 0 <= i < s.len() ==> s[i] != 0x1b,
    ensures
        esc_filter(s, false) == s,
        esc_state(s, false) == false,
    decreases s.len(),
{
    if s.len() == 0 {
        assert(esc_filter(s, false) =~= s);
    } else {
        lemma_esc_filter_clean(s.drop_first());
        assert(esc_filter(s, false) =~= seq![s[0]] + s.drop_first());
        assert(seq![s[0]] + s.drop_first() =~= s);
    }
}

/// The escape filter as a resumable state machine: carries the one boolean of
/// state ("inside an escape sequence") across chunks.
pub struct EscapeSkipper {
    in_escape: bool,
}

impl EscapeSkipper {
    /// True while the skipper stands inside an escape sequence.
    pub closed spec fn in_esc(&self) -> bool {
        self.in_escape
    }

    pub fn new() -> (r: Self)
        ensures
            !r.in_esc(),
    {
        EscapeSkipper { in_escape: false }
    }

    /// Filters one chunk, carrying the escape state over from earlier chunks.
    pub fn filter_chunk(&mut self, chunk: &[u8]) -> (out: Vec<u8>)
        ensures
            out@ == esc_filter(chunk@, old(self).in_esc()),
            final(self).in_esc() == esc_state(chunk@, old(self).in_esc()),
    {
        let ghost st0 = self.in_escape;
        let mut out: Vec<u8> = Vec::new();
        let mut i: usize = 0;
        while i < chunk.len()
            invariant
                i <= chunk@.len(),
                out@ == esc_filter(chunk@.take(i as int), st0),
                self.in_escape == esc_state(chunk@.take(i as int), st0),
            decreases chunk@.len() - i,
        {
            let b = chunk[i];
            proof {
                let st_cur = self.in_escape;
                assert(chunk@.take(i + 1) =~= chunk@.take(i as int) + seq![b]);
                lemma_esc_filter_append(chunk@.take(i as int), seq![b], st0);
                lemma_esc_single(b, st_cur);
            }
            if self.in_escape {
                if (0x41 <= b && b <= 0x5a) || (0x61 <= b && b <= 0x7a) {
                    self.in_escape = false;
                }
            } else {
                if b == 0x1b {
                    self.in_escape = true;
                } else {
                    out.push(b);
                }
            }
            i = i + 1;
            proof {
                assert(out@ == esc_filter(chunk@.take(i as int), st0));
            }
        }
        proof {
            assert(chunk@.take(chunk@.len() as int) =~= chunk@);
        }
        out
    }
}

} // verus!
