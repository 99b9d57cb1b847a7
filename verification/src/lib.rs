//! Searching a source for occurrences of a pattern.
//!
//! A source is either text, indexed by the bytes of its UTF-8 encoding, or a
//! slice of elements that can be compared for equality, indexed by element.
//! [`pattern::PatternMatcher`] asks each kind of source for one primitive, the
//! first occurrence at or after an offset, and builds the other searches on it.
//! What every search returns is stated over the sequences of
//! [`occurrence`].
pub mod occurrence;
pub mod pattern;
pub mod sequence;
pub mod text;
pub mod types;
