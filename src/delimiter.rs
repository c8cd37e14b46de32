//! Delimiters: what a [`crate::Splitter`] splits on.

use vstd::prelude::*;
use vstd::string::*;
use vstd::utf8::*;

use crate::search::{find_char, find_str, is_leftmost, leftmost, occurs_at};

verus! {

broadcast use vstd::utf8::encode_utf8_valid_utf8;

/// The bytes a delimiter matches: the UTF-8 encoding of its pattern.
pub open spec fn pattern_bytes<D: Delimiter>(d: D) -> Seq<u8> {
    encode_utf8(d.pattern())
}

/// A matching strategy that reports the leftmost occurrence of its pattern.
pub trait Delimiter {
    /// The characters this delimiter matches.
    spec fn pattern(&self) -> Seq<char>;

    /// The half-open byte range of the leftmost occurrence of the pattern in
    /// `s`, or `None` when the pattern does not occur there.
    fn find_next(&self, s: &str) -> (r: Option<(usize, usize)>)
        ensures
            match r {
                Some((start, end)) => {
                    &&& leftmost(s.spec_bytes(), encode_utf8(self.pattern())) == Some(start as int)
                    &&& end == start + encode_utf8(self.pattern()).len()
                },
                None => leftmost(s.spec_bytes(), encode_utf8(self.pattern())) is None,
            },
    ;
}

/// A match of an exact string.
impl<'p> Delimiter for &'p str {
    open spec fn pattern(&self) -> Seq<char> {
        (**self)@
    }

    fn find_next(&self, s: &str) -> (r: Option<(usize, usize)>) {
        match find_str(s, *self) {
            Some(start) => {
                // A slice's length fits in `usize`, and bounds the match.
                let _total = s.as_bytes().len();
                proof {
                    crate::search::lemma_leftmost_unique(
                        s.spec_bytes(),
                        (**self).spec_bytes(),
                        start as int,
                    );
                }
                Some((start, start + self.len()))
            },
            None => {
                proof {
                    crate::search::lemma_leftmost_none(s.spec_bytes(), (**self).spec_bytes());
                }
                None
            },
        }
    }
}

/// The number of bytes in the UTF-8 encoding of `c`.
pub fn char_width(c: char) -> (n: usize)
    ensures
        n == encode_utf8(seq![c]).len(),
        1 <= n <= 4,
{
    let v = c as u32;
    proof {
        char_is_scalar(c);
        assert(encode_utf8(seq![c]) =~= encode_scalar(v) + encode_utf8(seq![c].drop_first()));
        assert(encode_utf8(seq![c].drop_first()) =~= Seq::<u8>::empty());
    }
    if v < 0x80 {
        1
    } else if v < 0x800 {
        2
    } else if v < 0x10000 {
        3
    } else {
        4
    }
}

/// A match of a single character. The match spans the character's whole
/// UTF-8 encoding, one to four bytes, so that splitting on a character
/// outside ASCII never cuts into an encoding.
impl Delimiter for char {
    open spec fn pattern(&self) -> Seq<char> {
        seq![*self]
    }

    fn find_next(&self, s: &str) -> (r: Option<(usize, usize)>) {
        match find_char(s, *self) {
            Some(start) => {
                let width = char_width(*self);
                // A slice's length fits in `usize`, and bounds the match.
                let _total = s.as_bytes().len();
                proof {
                    crate::search::lemma_leftmost_unique(
                        s.spec_bytes(),
                        encode_utf8(seq![*self]),
                        start as int,
                    );
                }
                Some((start, start + width))
            },
            None => {
                proof {
                    crate::search::lemma_leftmost_none(s.spec_bytes(), encode_utf8(seq![*self]));
                }
                None
            },
        }
    }
}

} // verus!
