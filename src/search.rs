//! Leftmost occurrence of a byte pattern, and the searches of `str` that
//! report it.

use vstd::prelude::*;
use vstd::string::*;
use vstd::utf8::*;

verus! {

/// `pat` occurs in `hay` starting at byte `i`.
pub open spec fn occurs_at(hay: Seq<u8>, pat: Seq<u8>, i: int) -> bool {
    &&& 0 <= i
    &&& i + pat.len() <= hay.len()
    &&& hay.subrange(i, i + pat.len()) == pat
}

/// `i` is the leftmost occurrence of `pat` in `hay`.
pub open spec fn is_leftmost(hay: Seq<u8>, pat: Seq<u8>, i: int) -> bool {
    &&& occurs_at(hay, pat, i)
    &&& forall|j: int| 0 <= j < i ==> !occurs_at(hay, pat, j)
}

/// The byte where the leftmost occurrence of `pat` in `hay` begins, if any.
pub open spec fn leftmost(hay: Seq<u8>, pat: Seq<u8>) -> Option<int> {
    if exists|i: int| is_leftmost(hay, pat, i) {
        Some(choose|i: int| is_leftmost(hay, pat, i))
    } else {
        None
    }
}

/// There is at most one leftmost occurrence, and `leftmost` reports it.
pub proof fn lemma_leftmost_unique(hay: Seq<u8>, pat: Seq<u8>, i: int)
    requires
        is_leftmost(hay, pat, i),
    ensures
        leftmost(hay, pat) == Some(i),
{
    let j = choose|j: int| is_leftmost(hay, pat, j);
    assert(is_leftmost(hay, pat, j));
    if j < i {
        assert(!occurs_at(hay, pat, j));
    } else if i < j {
        assert(!occurs_at(hay, pat, i));
    }
}

/// Without any occurrence there is no leftmost one.
pub proof fn lemma_leftmost_none(hay: Seq<u8>, pat: Seq<u8>)
    requires
        forall|i: int| !occurs_at(hay, pat, i),
    ensures
        leftmost(hay, pat) is None,
{
    if exists|i: int| is_leftmost(hay, pat, i) {
        let j = choose|j: int| is_leftmost(hay, pat, j);
        assert(occurs_at(hay, pat, j));
    }
}


/// Splitting a valid encoding right after a valid prefix cuts it on a
/// character boundary.
proof fn lemma_prefix_ends_on_boundary(p: Seq<u8>, r: Seq<u8>)
    requires
        valid_utf8(p),
        valid_utf8(p + r),
    ensures
        is_char_boundary(p + r, p.len() as int),
    decreases p.len(),
{
    if p.len() > 0 {
        let t = p + r;
        let rest = pop_first_scalar(p);
        assert(t[0] == p[0]);
        assert(length_of_first_scalar(t) == length_of_first_scalar(p));
        assert(pop_first_scalar(t) =~= rest + r);
        lemma_prefix_ends_on_boundary(rest, r);
    }
}

/// A boundary of a suffix that starts on a boundary is a boundary of the
/// whole.
proof fn lemma_boundary_of_suffix(h: Seq<u8>, i: int, k: int)
    requires
        valid_utf8(h),
        is_char_boundary(h, i),
        is_char_boundary(h.subrange(i, h.len() as int), k),
    ensures
        is_char_boundary(h, i + k),
    decreases h.len(),
{
    valid_utf8_split(h, i);
    if i == 0 {
        assert(h.subrange(0, h.len() as int) =~= h);
    } else {
        let sub = h.subrange(i, h.len() as int);
        let t = pop_first_scalar(h);
        let l = length_of_first_scalar(h);
        assert(is_char_boundary(t, i - l));
        assert(i - l >= 0);
        assert(t.subrange(i - l, t.len() as int) =~= sub);
        lemma_boundary_of_suffix(t, i - l, k);
        assert(is_char_boundary(sub, k));
    }
}

/// Both ends of the leftmost occurrence of a valid encoding in a valid
/// encoding lie on character boundaries.
pub proof fn lemma_leftmost_on_boundaries(hay: Seq<u8>, pat: Seq<u8>, i: int)
    requires
        valid_utf8(hay),
        valid_utf8(pat),
        is_leftmost(hay, pat, i),
    ensures
        is_char_boundary(hay, i),
        is_char_boundary(hay, i + pat.len()),
{
    if pat.len() == 0 {
        assert(occurs_at(hay, pat, 0)) by {
            assert(hay.subrange(0, 0) =~= pat);
        }
        assert(i == 0);
    } else {
        assert(hay[i] == pat[0]) by {
            assert(hay.subrange(i, i + pat.len())[0] == pat[0]);
        }
        assert(is_char_boundary(pat, 0));
        is_char_boundary_iff_not_is_continuation_byte(pat, 0);
        is_char_boundary_iff_not_is_continuation_byte(hay, i);
    }
    let t = hay.subrange(i, hay.len() as int);
    let r = hay.subrange(i + pat.len(), hay.len() as int);
    valid_utf8_split(hay, i);
    assert(t =~= pat + r);
    lemma_prefix_ends_on_boundary(pat, r);
    lemma_boundary_of_suffix(hay, i, pat.len() as int);
}

/// Relies on `str::find` with a `&str` pattern: the byte index where the
/// leftmost occurrence of `pat` in `hay` begins, or `None` when it does not
/// occur (an empty `pat` occurs at 0).
#[verifier::external_body]
pub(crate) fn find_str(hay: &str, pat: &str) -> (r: Option<usize>)
    ensures
        match r {
            Some(i) => is_leftmost(hay.spec_bytes(), pat.spec_bytes(), i as int),
            None => forall|i: int| !occurs_at(hay.spec_bytes(), pat.spec_bytes(), i),
        },
{
    hay.find(pat)
}

/// Relies on `str::find` with a `char` pattern: the byte index where the
/// leftmost occurrence of `c`, that is of its UTF-8 encoding, in `hay`
/// begins, or `None` when it does not occur.
#[verifier::external_body]
pub(crate) fn find_char(hay: &str, c: char) -> (r: Option<usize>)
    ensures
        match r {
            Some(i) => is_leftmost(hay.spec_bytes(), encode_utf8(seq![c]), i as int),
            None => forall|i: int| !occurs_at(hay.spec_bytes(), encode_utf8(seq![c]), i),
        },
{
    hay.find(c)
}

} // verus!
