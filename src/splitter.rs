//! The lazy splitter and its state machine.

use vstd::prelude::*;
use vstd::string::*;
use vstd::utf8::*;

use crate::delimiter::{Delimiter, pattern_bytes};
use crate::search::{is_leftmost, leftmost, lemma_leftmost_on_boundaries};

verus! {

broadcast use vstd::utf8::encode_utf8_valid_utf8;

/// One advance of the state machine on the bytes still to split (`None`
/// once exhausted): the next state and the segment produced.
pub open spec fn advance(pat: Seq<u8>, state: Option<Seq<u8>>) -> (
    Option<Seq<u8>>,
    Option<Seq<u8>>,
) {
    match state {
        None => (None, None),
        Some(rem) => match leftmost(rem, pat) {
            Some(i) => (
                Some(rem.subrange(i + pat.len(), rem.len() as int)),
                Some(rem.subrange(0, i)),
            ),
            None => (None, Some(rem)),
        },
    }
}

/// The state after `n` advances from `state`.
pub open spec fn state_after(pat: Seq<u8>, state: Option<Seq<u8>>, n: nat) -> Option<Seq<u8>>
    decreases n,
{
    if n == 0 {
        state
    } else {
        state_after(pat, advance(pat, state).0, (n - 1) as nat)
    }
}

/// The segment produced by the advance that follows `n` advances from
/// `state`.
pub open spec fn output_after(pat: Seq<u8>, state: Option<Seq<u8>>, n: nat) -> Option<Seq<u8>> {
    advance(pat, state_after(pat, state, n)).1
}

/// Every segment a complete run over `hay` produces, in order. A run is
/// finite when the pattern is not empty: each match it moves past takes at
/// least one byte.
pub open spec fn segments(pat: Seq<u8>, hay: Seq<u8>) -> Seq<Seq<u8>>
    decreases hay.len(),
    when pat.len() > 0
{
    match leftmost(hay, pat) {
        Some(i) => seq![hay.subrange(0, i)] + segments(
            pat,
            hay.subrange(i + pat.len(), hay.len() as int),
        ),
        None => seq![hay],
    }
}

/// `segs` in order, with `pat` between each two consecutive ones.
pub open spec fn join(segs: Seq<Seq<u8>>, pat: Seq<u8>) -> Seq<u8>
    decreases segs.len(),
{
    if segs.len() == 0 {
        Seq::empty()
    } else if segs.len() == 1 {
        segs[0]
    } else {
        segs[0] + pat + join(segs.drop_first(), pat)
    }
}

/// The bytes of a segment, if there is one.
pub open spec fn segment_bytes(seg: Option<&str>) -> Option<Seq<u8>> {
    match seg {
        Some(s) => Some(s.spec_bytes()),
        None => None,
    }
}

/// The first segment of `hay`: everything before the leftmost occurrence of
/// `pat`, or all of `hay` when it does not occur.
pub open spec fn first_segment(pat: Seq<u8>, hay: Seq<u8>) -> Seq<u8> {
    match leftmost(hay, pat) {
        Some(i) => hay.subrange(0, i),
        None => hay,
    }
}

/// Splits a haystack lazily on a delimiter. Every segment it hands out is
/// borrowed from the haystack, which must outlive the splitter.
pub struct Splitter<'a, D> {
    haystack: Option<&'a str>,
    delimiter: D,
}

impl<'a, D> Splitter<'a, D> {
    /// The bytes not yet split, or `None` once exhausted.
    pub closed spec fn remainder(&self) -> Option<Seq<u8>> {
        segment_bytes(self.haystack)
    }

    /// The delimiter split on.
    pub closed spec fn delimiter(&self) -> D {
        self.delimiter
    }

    /// A splitter over all of `text`.
    pub fn new(text: &'a str, pat: D) -> (r: Self)
        ensures
            r.remainder() == Some(text.spec_bytes()),
            r.delimiter() == pat,
    {
        Splitter { haystack: Some(text), delimiter: pat }
    }
}

impl<'a, D: Delimiter> Splitter<'a, D> {
    /// Hands out the next segment: the bytes before the leftmost match of the
    /// delimiter in what remains, moving past the match; or, with no match
    /// left, all that remains, after which the splitter is exhausted and
    /// hands out nothing more.
    pub fn next(&mut self) -> (r: Option<&'a str>)
        ensures
            final(self).delimiter() == old(self).delimiter(),
            (final(self).remainder(), segment_bytes(r)) == advance(
                pattern_bytes(old(self).delimiter()),
                old(self).remainder(),
            ),
    {
        match self.haystack {
            None => None,
            Some(rem) => match self.delimiter.find_next(rem) {
                Some((start, end)) => {
                    proof {
                        let bytes = rem.spec_bytes();
                        let pat = pattern_bytes(self.delimiter);
                        let i = start as int;
                        assert(is_leftmost(bytes, pat, i));
                        lemma_leftmost_on_boundaries(bytes, pat, i);
                    }
                    let (seg, _) = rem.split_at(start);
                    let (_, rest) = rem.split_at(end);
                    self.haystack = Some(rest);
                    Some(seg)
                },
                None => {
                    self.haystack = None;
                    Some(rem)
                },
            },
        }
    }
}

/// The first segment of `s` split on `c`: all of `s` before the leftmost
/// match of `c`, or all of `s` when `c` does not occur.
pub fn until_char<'a, D: Delimiter>(s: &'a str, c: D) -> (r: &'a str)
    ensures
        r.spec_bytes() == first_segment(pattern_bytes(c), s.spec_bytes()),
{
    let mut splitter = Splitter::new(s, c);
    let first = splitter.next();
    first.unwrap()
}

} // verus!
