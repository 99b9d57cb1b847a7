//! Searching text.
//!
//! The units are the bytes of the UTF-8 encoding: offsets, starts and lengths
//! count bytes, not characters. A pattern occurs where its bytes stand in the
//! source. The search itself is left to the substring search of `str`.
//!
//! An offset need not lie on a character boundary. No occurrence starts inside
//! a character, so a search from such an offset finds what a search from the
//! next boundary finds.
use crate::occurrence::{occurs_at, same_units};
use crate::pattern::{PatternMatch, PatternMatcher};
use vstd::prelude::*;
use vstd::string::StringSliceAdditionalSpecFns;
use vstd::utf8::{
    encode_utf8_decode_utf8, encode_utf8_valid_utf8, is_char_boundary,
    is_char_boundary_iff_not_is_continuation_byte, is_char_boundary_start_end_of_seq,
    length_of_first_scalar, pop_first_scalar, valid_utf8, valid_utf8_split,
};

verus! {

/// Equality of two bytes.
pub open spec fn byte_eq() -> spec_fn(u8, u8) -> bool {
    |unit: u8, other: u8| unit == other
}

/// The bytes of `needle` stand in `haystack` from index `at` on. An empty
/// needle stands at every index up to the length of the haystack.
pub open spec fn stands_at(haystack: Seq<u8>, needle: Seq<u8>, at: int) -> bool {
    &&& 0 <= at
    &&& at + needle.len() <= haystack.len()
    &&& haystack.subrange(at, at + needle.len()) == needle
}

/// `str::find` with a string as the pattern: the byte index at which `needle`
/// first stands in `haystack`, or `None` when it stands nowhere. Trusted: the
/// search is that of the standard library.
#[verifier::external_body]
fn find_substring(haystack: &str, needle: &str) -> (at: Option<usize>)
    ensures
        match at {
            Some(first) => {
                &&& stands_at(haystack.spec_bytes(), needle.spec_bytes(), first as int)
                &&& forall|earlier: int|
                    0 <= earlier < first ==> !stands_at(
                        haystack.spec_bytes(),
                        needle.spec_bytes(),
                        earlier,
                    )
            },
            None => forall|anywhere: int|
                !stands_at(haystack.spec_bytes(), needle.spec_bytes(), anywhere),
        },
{
    haystack.find(needle)
}

/// A non-empty pattern occurs where its bytes stand.
pub proof fn lemma_occurs_where_bytes_stand(source: Seq<u8>, pattern: Seq<u8>, at: int)
    ensures
        occurs_at(byte_eq(), source, pattern, at) <==> 0 < pattern.len() && stands_at(
            source,
            pattern,
            at,
        ),
{
    if 0 < pattern.len() && 0 <= at && at + pattern.len() <= source.len() {
        let window = source.subrange(at, at + pattern.len());
        if same_units(byte_eq(), window, pattern) {
            assert(window =~= pattern);
        }
    }
}

/// Two texts whose bytes agree are the same text.
pub proof fn lemma_same_bytes_same_text(text: &str, other: &str)
    requires
        same_units(byte_eq(), text.spec_bytes(), other.spec_bytes()),
    ensures
        text@ == other@,
{
    assert(text.spec_bytes() =~= other.spec_bytes());
    encode_utf8_decode_utf8(text@);
    encode_utf8_decode_utf8(other@);
}

/// A needle stands in what is left of the haystack behind `cut` exactly where,
/// counted from the start of the haystack, it stands `cut` bytes further on.
pub proof fn lemma_stands_in_tail(haystack: Seq<u8>, needle: Seq<u8>, cut: int, at: int)
    requires
        0 <= cut <= haystack.len(),
        0 <= at,
    ensures
        stands_at(haystack.subrange(cut, haystack.len() as int), needle, at) <==> stands_at(
            haystack,
            needle,
            cut + at,
        ),
{
    let tail = haystack.subrange(cut, haystack.len() as int);
    if at + needle.len() <= tail.len() {
        assert(tail.subrange(at, at + needle.len()) =~= haystack.subrange(
            cut + at,
            cut + at + needle.len(),
        ));
    }
}

/// Where one valid encoding begins with another, the shorter one ends on a
/// character boundary of the longer.
pub proof fn lemma_prefix_ends_on_boundary(bytes: Seq<u8>, prefix: Seq<u8>)
    requires
        valid_utf8(bytes),
        valid_utf8(prefix),
        stands_at(bytes, prefix, 0),
    ensures
        is_char_boundary(bytes, prefix.len() as int),
    decreases prefix.len(),
{
    if prefix.len() > 0 {
        let width = length_of_first_scalar(prefix);
        assert(bytes.subrange(0, prefix.len() as int)[0] == prefix[0]);
        assert(length_of_first_scalar(bytes) == width);
        let rest = pop_first_scalar(bytes);
        let shorter = pop_first_scalar(prefix);
        assert(rest.subrange(0, shorter.len() as int) =~= shorter) by {
            assert forall|k: int| 0 <= k < shorter.len() implies rest[k] == shorter[k] by {
                assert(bytes.subrange(0, prefix.len() as int)[width + k] == prefix[width + k]);
            }
        }
        lemma_prefix_ends_on_boundary(rest, shorter);
    }
}

/// No occurrence of valid text starts inside a character of valid text.
pub proof fn lemma_occurrence_starts_on_boundary(source: Seq<u8>, pattern: Seq<u8>, at: int)
    requires
        valid_utf8(source),
        valid_utf8(pattern),
        occurs_at(byte_eq(), source, pattern, at),
    ensures
        is_char_boundary(source, at),
{
    is_char_boundary_start_end_of_seq(pattern);
    is_char_boundary_iff_not_is_continuation_byte(pattern, 0);
    assert(source.subrange(at, at + pattern.len())[0] == source[at]);
    is_char_boundary_iff_not_is_continuation_byte(source, at);
}

impl<'a> PatternMatcher<'a, str> for str {
    type Unit = u8;

    open spec fn units(&self) -> Seq<u8> {
        self.spec_bytes()
    }

    open spec fn pattern_units(pattern: &str) -> Seq<u8> {
        pattern.spec_bytes()
    }

    open spec fn unit_eq() -> spec_fn(u8, u8) -> bool {
        byte_eq()
    }

    open spec fn obeys_unit_eq() -> bool {
        true
    }

    /// Moves `offset` up to the next character boundary, searches what is left
    /// of the text from there, and cuts the view of the match out of the text.
    /// The view is the same text as the pattern.
    fn find_first_from(&'a self, pattern: &str, offset: usize) -> (found: Option<
        PatternMatch<&'a str>,
    >)
        ensures
            found matches Some(m) ==> m.slice@ == pattern@,
    {
        let ghost source = self.spec_bytes();
        let ghost units = pattern.spec_bytes();
        let byte_len = pattern.as_bytes().len();
        let source_len = self.as_bytes().len();
        if byte_len == 0 || offset > source_len {
            return None;
        }
        proof {
            encode_utf8_valid_utf8(self@);
            encode_utf8_valid_utf8(pattern@);
            is_char_boundary_start_end_of_seq(source);
        }
        let mut boundary: usize = offset;
        while !self.is_char_boundary(boundary)
            invariant
                source == self.spec_bytes(),
                source_len == source.len(),
                valid_utf8(source),
                is_char_boundary(source, source_len as int),
                offset <= boundary <= source_len,
                forall|at: int| offset <= at < boundary ==> !is_char_boundary(source, at),
            decreases source_len - boundary,
        {
            boundary += 1;
        }
        let (_, tail) = self.split_at(boundary);
        match find_substring(tail, pattern) {
            Some(index) => {
                proof {
                    lemma_stands_in_tail(source, units, boundary as int, index as int);
                }
                let start = boundary + index;
                proof {
                    lemma_occurs_where_bytes_stand(source, units, start as int);
                    assert forall|earlier: int| offset <= earlier < start implies !occurs_at(
                        byte_eq(),
                        source,
                        units,
                        earlier,
                    ) by {
                        if occurs_at(byte_eq(), source, units, earlier) {
                            lemma_occurrence_starts_on_boundary(source, units, earlier);
                            lemma_occurs_where_bytes_stand(source, units, earlier);
                            lemma_stands_in_tail(
                                source,
                                units,
                                boundary as int,
                                earlier - boundary,
                            );
                        }
                    }
                    lemma_occurrence_starts_on_boundary(source, units, start as int);
                    valid_utf8_split(source, start as int);
                    lemma_stands_in_tail(source, units, start as int, 0);
                    lemma_prefix_ends_on_boundary(
                        source.subrange(start as int, source.len() as int),
                        units,
                    );
                }
                let (_, rest) = self.split_at(start);
                let (slice, _) = rest.split_at(byte_len);
                proof {
                    assert(slice.spec_bytes() =~= source.subrange(
                        start as int,
                        start + byte_len,
                    ));
                    lemma_same_bytes_same_text(slice, pattern);
                }
                Some(PatternMatch { index: start, length: byte_len, slice })
            },
            None => {
                proof {
                    assert forall|at: int| offset <= at implies !occurs_at(
                        byte_eq(),
                        source,
                        units,
                        at,
                    ) by {
                        if occurs_at(byte_eq(), source, units, at) {
                            lemma_occurrence_starts_on_boundary(source, units, at);
                            lemma_occurs_where_bytes_stand(source, units, at);
                            lemma_stands_in_tail(source, units, boundary as int, at - boundary);
                        }
                    }
                }
                None
            },
        }
    }
}

} // verus!
