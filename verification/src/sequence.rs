//! Searching a slice of elements that can be compared for equality.
//!
//! The units are the elements. A search tries every start from left to right
//! and compares the window there with the pattern element by element; it gives
//! up as soon as what is left of the source is shorter than the pattern.
use crate::occurrence::{occurs_at, same_units};
use crate::pattern::{PatternMatch, PatternMatcher};
use vstd::prelude::*;
use vstd::slice::slice_subrange;
use vstd::std_specs::cmp::PartialEqSpec;

verus! {

/// Equality of two elements as `==` computes it.
pub open spec fn element_eq<T: PartialEq>() -> spec_fn(T, T) -> bool {
    |unit: T, other: T| unit.eq_spec(&other)
}

/// Whether the elements of `source` in `[at, at + pattern.len())` agree with
/// `pattern`, each compared with `==` against the element of the pattern at the
/// same place.
fn window_matches<T: PartialEq>(source: &[T], at: usize, pattern: &[T]) -> (same: bool)
    requires
        at + pattern@.len() <= source@.len(),
    ensures
        T::obeys_eq_spec() ==> same == same_units(
            element_eq::<T>(),
            source@.subrange(at as int, at + pattern@.len()),
            pattern@,
        ),
{
    let ghost window = source@.subrange(at as int, at + pattern@.len());
    let source_len = source.len();
    let mut k: usize = 0;
    while k < pattern.len()
        invariant
            k <= pattern@.len(),
            at + pattern@.len() <= source@.len() == source_len,
            window == source@.subrange(at as int, at + pattern@.len()),
            T::obeys_eq_spec() ==> forall|j: int|
                0 <= j < k ==> element_eq::<T>()(#[trigger] window[j], pattern@[j]),
        decreases pattern@.len() - k,
    {
        if source[at + k] != pattern[k] {
            assert(T::obeys_eq_spec() ==> !element_eq::<T>()(window[k as int], pattern@[k as int]));
            return false;
        }
        k += 1;
    }
    true
}

impl<'a, T: PartialEq> PatternMatcher<'a, [T]> for [T] {
    type Unit = T;

    open spec fn units(&self) -> Seq<T> {
        self@
    }

    open spec fn pattern_units(pattern: &[T]) -> Seq<T> {
        pattern@
    }

    open spec fn unit_eq() -> spec_fn(T, T) -> bool {
        element_eq::<T>()
    }

    open spec fn obeys_unit_eq() -> bool {
        T::obeys_eq_spec()
    }

    /// Tries each start from `offset` on, and stops at the first window that
    /// agrees with the pattern or when too little of the source is left.
    fn find_first_from(&'a self, pattern: &[T], offset: usize) -> (found: Option<
        PatternMatch<&'a [T]>,
    >) {
        let pattern_len = pattern.len();
        let source_len = self.len();
        if pattern_len == 0 || offset > source_len {
            return None;
        }
        let mut compare_start: usize = offset;
        while compare_start < source_len
            invariant
                pattern_len == pattern@.len(),
                source_len == self@.len(),
                0 < pattern_len,
                offset <= compare_start <= source_len,
                T::obeys_eq_spec() ==> forall|earlier: int|
                    offset <= earlier < compare_start ==> !occurs_at(
                        element_eq::<T>(),
                        self@,
                        pattern@,
                        earlier,
                    ),
            decreases source_len - compare_start,
        {
            if pattern_len > source_len - compare_start {
                return None;
            }
            if window_matches(self, compare_start, pattern) {
                let slice = slice_subrange(self, compare_start, compare_start + pattern_len);
                assert(T::obeys_eq_spec() ==> occurs_at(
                    element_eq::<T>(),
                    self@,
                    pattern@,
                    compare_start as int,
                ));
                return Some(PatternMatch { index: compare_start, length: pattern_len, slice });
            }
            compare_start += 1;
        }
        None
    }
}

} // verus!
