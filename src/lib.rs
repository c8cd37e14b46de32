//! Lazy, zero-copy splitting of a string slice on a delimiter.
//!
//! A [`Splitter`] hands out the pieces of a haystack that lie between the
//! leftmost matches of a [`Delimiter`], one piece per call of
//! [`Splitter::next`], each piece borrowed from the haystack itself.

pub mod delimiter;
pub mod laws;
pub mod search;
pub mod splitter;

pub use delimiter::{Delimiter, char_width, pattern_bytes};
pub use search::{is_leftmost, leftmost, occurs_at};
pub use splitter::{
    Splitter, advance, first_segment, join, output_after, segment_bytes, segments, state_after,
    until_char,
};
