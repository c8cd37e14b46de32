//! What holds of every run of a splitter.

use vstd::prelude::*;
use vstd::utf8::*;

use crate::delimiter::{Delimiter, pattern_bytes};
use crate::search::{is_leftmost, leftmost, occurs_at};
use crate::splitter::{advance, join, output_after, segments, state_after};

verus! {

/// A nonempty pattern encodes to nonempty bytes.
proof fn lemma_pattern_bytes_nonempty<D: Delimiter>(d: D)
    requires
        d.pattern().len() > 0,
    ensures
        pattern_bytes(d).len() > 0,
{
    let chars = d.pattern();
    assert(encode_utf8(chars) == encode_scalar(chars[0] as u32) + encode_utf8(chars.drop_first()));
}

/// An exhausted splitter stays exhausted.
proof fn lemma_exhausted_stays(pat: Seq<u8>, n: nat)
    ensures
        state_after(pat, None, n) is None,
        output_after(pat, None, n) is None,
    decreases n,
{
    if n > 0 {
        lemma_exhausted_stays(pat, (n - 1) as nat);
    }
}

/// Where the leftmost occurrence lies, when there is one.
proof fn lemma_leftmost_in_bounds(hay: Seq<u8>, pat: Seq<u8>)
    ensures
        match leftmost(hay, pat) {
            Some(i) => is_leftmost(hay, pat, i),
            None => forall|j: int| !is_leftmost(hay, pat, j),
        },
{
}

/// Each advance from an active state produces a segment, and the segment,
/// the matched delimiter bytes and the new remainder make up the old
/// remainder exactly; when no match is left, the segment is all of it.
pub proof fn lemma_advance_rebuilds<D: Delimiter>(d: D, rem: Seq<u8>)
    ensures
        advance(pattern_bytes(d), Some(rem)).1 is Some,
        match advance(pattern_bytes(d), Some(rem)) {
            (Some(rest), Some(seg)) => rem == seg + pattern_bytes(d) + rest,
            (None, Some(seg)) => rem == seg,
            _ => true,
        },
{
    let pat = pattern_bytes(d);
    lemma_leftmost_in_bounds(rem, pat);
    if let Some(i) = leftmost(rem, pat) {
        assert(rem =~= rem.subrange(0, i) + pat + rem.subrange(i + pat.len(), rem.len() as int));
    }
}

proof fn lemma_segments_nonempty(pat: Seq<u8>, hay: Seq<u8>)
    requires
        pat.len() > 0,
    ensures
        segments(pat, hay).len() >= 1,
{
    lemma_leftmost_in_bounds(hay, pat);
}

proof fn lemma_join_segments(pat: Seq<u8>, hay: Seq<u8>)
    requires
        pat.len() > 0,
    ensures
        join(segments(pat, hay), pat) == hay,
    decreases hay.len(),
{
    lemma_leftmost_in_bounds(hay, pat);
    if let Some(i) = leftmost(hay, pat) {
        let seg = hay.subrange(0, i);
        let rest = hay.subrange(i + pat.len(), hay.len() as int);
        lemma_join_segments(pat, rest);
        lemma_segments_nonempty(pat, rest);
        let segs = segments(pat, hay);
        assert(segs.drop_first() =~= segments(pat, rest));
        assert(hay =~= seg + pat + rest);
    }
}

/// Reconstruction: for a delimiter with a nonempty pattern, the segments of a
/// complete run, with the matched delimiter bytes put back between them, make
/// up the haystack byte for byte.
pub proof fn lemma_segments_rebuild<D: Delimiter>(d: D, hay: Seq<u8>)
    requires
        d.pattern().len() > 0,
    ensures
        join(segments(pattern_bytes(d), hay), pattern_bytes(d)) == hay,
{
    lemma_pattern_bytes_nonempty(d);
    lemma_join_segments(pattern_bytes(d), hay);
}

proof fn lemma_run(pat: Seq<u8>, hay: Seq<u8>, n: nat)
    requires
        pat.len() > 0,
    ensures
        n < segments(pat, hay).len() ==> output_after(pat, Some(hay), n) == Some(
            segments(pat, hay)[n as int],
        ),
        n >= segments(pat, hay).len() ==> state_after(pat, Some(hay), n) is None && output_after(
            pat,
            Some(hay),
            n,
        ) is None,
    decreases n,
{
    lemma_leftmost_in_bounds(hay, pat);
    lemma_segments_nonempty(pat, hay);
    if n > 0 {
        match leftmost(hay, pat) {
            Some(i) => {
                let rest = hay.subrange(i + pat.len(), hay.len() as int);
                lemma_run(pat, rest, (n - 1) as nat);
                assert(state_after(pat, Some(hay), n) == state_after(pat, Some(rest), (n - 1) as nat));
            },
            None => {
                lemma_exhausted_stays(pat, (n - 1) as nat);
                assert(state_after(pat, Some(hay), n) == state_after(pat, None, (n - 1) as nat));
            },
        }
    }
}

/// Termination: for a delimiter with a nonempty pattern, advance number `n`
/// (counting from 0) of a splitter over `hay` produces segment `n` of the
/// complete run while there is one; from then on the splitter is exhausted and
/// every advance produces nothing.
pub proof fn lemma_run_terminates<D: Delimiter>(d: D, hay: Seq<u8>, n: nat)
    requires
        d.pattern().len() > 0,
    ensures
        n < segments(pattern_bytes(d), hay).len() ==> output_after(pattern_bytes(d), Some(hay), n)
            == Some(segments(pattern_bytes(d), hay)[n as int]),
        n >= segments(pattern_bytes(d), hay).len() ==> state_after(
            pattern_bytes(d),
            Some(hay),
            n,
        ) is None && output_after(pattern_bytes(d), Some(hay), n) is None,
{
    lemma_pattern_bytes_nonempty(d);
    lemma_run(pattern_bytes(d), hay, n);
}

proof fn lemma_single_segment(pat: Seq<u8>, hay: Seq<u8>)
    requires
        forall|i: int| !occurs_at(hay, pat, i),
    ensures
        output_after(pat, Some(hay), 0) == Some(hay),
        forall|n: nat|
            n >= 1 ==> #[trigger] state_after(pat, Some(hay), n) is None && output_after(
                pat,
                Some(hay),
                n,
            ) is None,
{
    lemma_leftmost_in_bounds(hay, pat);
    assert forall|n: nat| n >= 1 implies #[trigger] state_after(pat, Some(hay), n) is None
        && output_after(pat, Some(hay), n) is None by {
        lemma_exhausted_stays(pat, (n - 1) as nat);
        assert(state_after(pat, Some(hay), n) == state_after(pat, None, (n - 1) as nat));
    }
}

/// No match: where the delimiter does not occur in `hay`, the first advance
/// produces all of `hay`, and every later one produces nothing.
pub proof fn lemma_no_match<D: Delimiter>(d: D, hay: Seq<u8>)
    requires
        forall|i: int| !occurs_at(hay, pattern_bytes(d), i),
    ensures
        output_after(pattern_bytes(d), Some(hay), 0) == Some(hay),
        forall|n: nat|
            n >= 1 ==> #[trigger] state_after(pattern_bytes(d), Some(hay), n) is None
                && output_after(pattern_bytes(d), Some(hay), n) is None,
{
    lemma_single_segment(pattern_bytes(d), hay);
}

/// Empty haystack: with a nonempty pattern, the first advance over an empty
/// haystack produces one empty segment, and every later one produces nothing.
pub proof fn lemma_empty_haystack<D: Delimiter>(d: D)
    requires
        d.pattern().len() > 0,
    ensures
        output_after(pattern_bytes(d), Some(Seq::empty()), 0) == Some(Seq::<u8>::empty()),
        forall|n: nat|
            n >= 1 ==> #[trigger] state_after(pattern_bytes(d), Some(Seq::empty()), n) is None
                && output_after(pattern_bytes(d), Some(Seq::empty()), n) is None,
{
    lemma_pattern_bytes_nonempty(d);
    lemma_single_segment(pattern_bytes(d), Seq::empty());
}

} // verus!
