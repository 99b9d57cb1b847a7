//! Where a pattern occurs in a source: the mathematical side of the searches.
//!
//! Sources and patterns are sequences of units. Units are compared by a
//! relation `eq`, handed in as a value, so that one set of definitions serves
//! bytes of text and elements with an equality of their own.
//!
//! Convention: the empty pattern occurs nowhere. Every occurrence therefore
//! covers at least one unit, and a search that goes on at the end of the
//! previous occurrence always moves forward.
use vstd::prelude::*;

verus! {

/// The place of one occurrence: where it starts and how many units it covers.
pub ghost struct Span {
    pub start: int,
    pub length: int,
}

impl Span {
    /// The index just behind the last unit covered.
    pub open spec fn end(self) -> int {
        self.start + self.length
    }
}

/// `window` and `pattern` have the same length and agree unit by unit.
pub open spec fn same_units<U>(eq: spec_fn(U, U) -> bool, window: Seq<U>, pattern: Seq<U>) -> bool {
    &&& window.len() == pattern.len()
    &&& forall|k: int| 0 <= k < pattern.len() ==> eq(#[trigger] window[k], pattern[k])
}

/// The pattern is not empty, and the units of `source` in `[at, at + pattern.len())`
/// agree with it.
pub open spec fn occurs_at<U>(
    eq: spec_fn(U, U) -> bool,
    source: Seq<U>,
    pattern: Seq<U>,
    at: int,
) -> bool {
    &&& 0 < pattern.len()
    &&& 0 <= at
    &&& at + pattern.len() <= source.len()
    &&& same_units(eq, source.subrange(at, at + pattern.len()), pattern)
}

/// No occurrence of the pattern starts at `offset` or later.
pub open spec fn absent_from<U>(
    eq: spec_fn(U, U) -> bool,
    source: Seq<U>,
    pattern: Seq<U>,
    offset: int,
) -> bool {
    forall|at: int| offset <= at ==> !occurs_at(eq, source, pattern, at)
}

/// `at` is the least index not below `offset` at which the pattern occurs.
pub open spec fn is_first_from<U>(
    eq: spec_fn(U, U) -> bool,
    source: Seq<U>,
    pattern: Seq<U>,
    offset: int,
    at: int,
) -> bool {
    &&& offset <= at
    &&& occurs_at(eq, source, pattern, at)
    &&& forall|earlier: int| offset <= earlier < at ==> !occurs_at(eq, source, pattern, earlier)
}

/// The start of the first occurrence at or after `offset`, if there is one.
pub open spec fn first_from<U>(
    eq: spec_fn(U, U) -> bool,
    source: Seq<U>,
    pattern: Seq<U>,
    offset: int,
) -> Option<int> {
    if exists|at: int| is_first_from(eq, source, pattern, offset, at) {
        Some(choose|at: int| is_first_from(eq, source, pattern, offset, at))
    } else {
        None
    }
}

/// The occurrences that a search meets when it starts at `offset` and, after
/// each occurrence, goes on at its end. No two of them overlap: of a pattern
/// that overlaps itself in the source, only every other occurrence is met.
pub open spec fn every_from<U>(
    eq: spec_fn(U, U) -> bool,
    source: Seq<U>,
    pattern: Seq<U>,
    offset: int,
) -> Seq<Span>
    decreases source.len() - offset,
{
    match first_from(eq, source, pattern, offset) {
        Some(at) => seq![Span { start: at, length: pattern.len() as int }] + every_from(
            eq,
            source,
            pattern,
            at + pattern.len(),
        ),
        None => Seq::empty(),
    }
}

/// The occurrences of each pattern in turn: all that `every_from` gives for the
/// first pattern, then all for the second, and so on. The groups follow the
/// order of `patterns`, not the positions in the source.
pub open spec fn all_from<U>(
    eq: spec_fn(U, U) -> bool,
    source: Seq<U>,
    patterns: Seq<Seq<U>>,
    offset: int,
) -> Seq<Span>
    decreases patterns.len(),
{
    if patterns.len() == 0 {
        Seq::empty()
    } else {
        all_from(eq, source, patterns.drop_last(), offset) + every_from(
            eq,
            source,
            patterns.last(),
            offset,
        )
    }
}

/// Pattern number `winner` has its first occurrence from `offset` at `at`; no
/// pattern has one that starts before `at`, and none listed before `winner` has
/// one that starts at `at`.
pub open spec fn is_earliest<U>(
    eq: spec_fn(U, U) -> bool,
    source: Seq<U>,
    patterns: Seq<Seq<U>>,
    offset: int,
    winner: int,
    at: int,
) -> bool {
    &&& 0 <= winner < patterns.len()
    &&& first_from(eq, source, patterns[winner], offset) == Some(at)
    &&& forall|other: int|
        0 <= other < patterns.len() ==> (#[trigger] first_from(
            eq,
            source,
            patterns[other],
            offset,
        ) matches Some(start) ==> at < start || (at == start && winner <= other))
}

/// The first occurrence from an offset is unique.
pub proof fn lemma_first_is_unique<U>(
    eq: spec_fn(U, U) -> bool,
    source: Seq<U>,
    pattern: Seq<U>,
    offset: int,
    at: int,
    other: int,
)
    requires
        is_first_from(eq, source, pattern, offset, at),
        is_first_from(eq, source, pattern, offset, other),
    ensures
        at == other,
{
}

/// `first_from` is `Some(at)` exactly for the least occurrence `at`, and `None`
/// exactly when the pattern is absent from `offset` on.
pub proof fn lemma_first_from<U>(
    eq: spec_fn(U, U) -> bool,
    source: Seq<U>,
    pattern: Seq<U>,
    offset: int,
)
    ensures
        forall|at: int|
            is_first_from(eq, source, pattern, offset, at) <==> first_from(
                eq,
                source,
                pattern,
                offset,
            ) == Some(at),
        absent_from(eq, source, pattern, offset) <==> first_from(eq, source, pattern, offset)
            is None,
{
    assert forall|at: int| is_first_from(eq, source, pattern, offset, at) implies first_from(
        eq,
        source,
        pattern,
        offset,
    ) == Some(at) by {
        let chosen = choose|c: int| is_first_from(eq, source, pattern, offset, c);
        lemma_first_is_unique(eq, source, pattern, offset, at, chosen);
    }
    if !absent_from(eq, source, pattern, offset) {
        let some = choose|at: int| offset <= at && occurs_at(eq, source, pattern, at);
        lemma_least_occurrence(eq, source, pattern, offset, some);
    }
}

/// Below any occurrence at or after `offset` there is a first one.
pub proof fn lemma_least_occurrence<U>(
    eq: spec_fn(U, U) -> bool,
    source: Seq<U>,
    pattern: Seq<U>,
    offset: int,
    at: int,
)
    requires
        offset <= at,
        occurs_at(eq, source, pattern, at),
    ensures
        exists|first: int| first <= at && is_first_from(eq, source, pattern, offset, first),
    decreases at - offset,
{
    if exists|earlier: int| offset <= earlier < at && occurs_at(eq, source, pattern, earlier) {
        let earlier = choose|earlier: int|
            offset <= earlier < at && occurs_at(eq, source, pattern, earlier);
        lemma_least_occurrence(eq, source, pattern, offset, earlier);
    } else {
        assert(is_first_from(eq, source, pattern, offset, at));
    }
}

/// `every_from` is empty exactly when the pattern is absent from `offset` on.
pub proof fn lemma_every_from_empty<U>(
    eq: spec_fn(U, U) -> bool,
    source: Seq<U>,
    pattern: Seq<U>,
    offset: int,
)
    ensures
        every_from(eq, source, pattern, offset).len() == 0 <==> absent_from(
            eq,
            source,
            pattern,
            offset,
        ),
{
    lemma_first_from(eq, source, pattern, offset);
}

/// Among given patterns there is at most one earliest occurrence: the start
/// and the pattern that wins are determined.
pub proof fn lemma_earliest_is_unique<U>(
    eq: spec_fn(U, U) -> bool,
    source: Seq<U>,
    patterns: Seq<Seq<U>>,
    offset: int,
    winner: int,
    at: int,
    other_winner: int,
    other_at: int,
)
    requires
        is_earliest(eq, source, patterns, offset, winner, at),
        is_earliest(eq, source, patterns, offset, other_winner, other_at),
    ensures
        winner == other_winner,
        at == other_at,
{
}

/// The occurrences that `every_from` lists lie in the source at or after
/// `offset`, have the length of the pattern, and each starts where the one
/// before it ends or later.
pub proof fn lemma_every_from_in_order<U>(
    eq: spec_fn(U, U) -> bool,
    source: Seq<U>,
    pattern: Seq<U>,
    offset: int,
)
    ensures
        forall|i: int|
            0 <= i < every_from(eq, source, pattern, offset).len() ==> {
                let span = #[trigger] every_from(eq, source, pattern, offset)[i];
                &&& offset <= span.start
                &&& span.length == pattern.len()
                &&& span.end() <= source.len()
                &&& occurs_at(eq, source, pattern, span.start)
            },
        forall|i: int, j: int|
            0 <= i < j < every_from(eq, source, pattern, offset).len() ==> (#[trigger] every_from(
                eq,
                source,
                pattern,
                offset,
            )[i]).end() <= (#[trigger] every_from(eq, source, pattern, offset)[j]).start,
    decreases source.len() - offset,
{
    if let Some(at) = first_from(eq, source, pattern, offset) {
        lemma_every_from_in_order(eq, source, pattern, at + pattern.len());
        let rest = every_from(eq, source, pattern, at + pattern.len());
        let all = every_from(eq, source, pattern, offset);
        assert forall|i: int| 0 < i < all.len() implies all[i] == rest[i - 1] by {}
    }
}

/// `all_from` keeps the groups in the order of the patterns: for a list of
/// patterns followed by another, it gives everything for the first list and
/// then everything for the second; for a single pattern, what `every_from`
/// gives.
pub proof fn lemma_all_from_is_grouped<U>(
    eq: spec_fn(U, U) -> bool,
    source: Seq<U>,
    patterns: Seq<Seq<U>>,
    more: Seq<Seq<U>>,
    offset: int,
)
    ensures
        all_from(eq, source, patterns + more, offset) == all_from(eq, source, patterns, offset)
            + all_from(eq, source, more, offset),
        patterns.len() == 1 ==> all_from(eq, source, patterns, offset) == every_from(
            eq,
            source,
            patterns[0],
            offset,
        ),
    decreases more.len(),
{
    if more.len() == 0 {
        assert(patterns + more =~= patterns);
        assert(all_from(eq, source, patterns, offset) + all_from(eq, source, more, offset)
            =~= all_from(eq, source, patterns, offset));
    } else {
        lemma_all_from_is_grouped(eq, source, patterns, more.drop_last(), offset);
        assert((patterns + more).drop_last() =~= patterns + more.drop_last());
        assert((patterns + more).last() == more.last());
        assert(all_from(eq, source, patterns + more, offset) =~= all_from(
            eq,
            source,
            patterns,
            offset,
        ) + all_from(eq, source, more, offset));
    }
    if patterns.len() == 1 {
        assert(all_from(eq, source, patterns.drop_last(), offset) =~= Seq::empty());
        assert(all_from(eq, source, patterns, offset) =~= every_from(
            eq,
            source,
            patterns[0],
            offset,
        ));
    }
}

} // verus!
