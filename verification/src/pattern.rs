//! The record of a match, and the searches that every kind of source offers.
use crate::occurrence::{
    absent_from, all_from, every_from, first_from, is_earliest, is_first_from,
    lemma_every_from_empty, lemma_first_from, occurs_at, same_units, Span,
};
use std::ops::Range;
use vstd::prelude::*;

verus! {

/// One occurrence of a pattern in a source: where it starts, how many units it
/// covers, and a view of the units covered.
///
/// The fields are open, so a record can be written down by hand; the searches
/// return records that satisfy [`PatternMatch::describes`].
pub struct PatternMatch<T> {
    /// Where the occurrence starts.
    pub index: usize,
    /// How many units it covers.
    pub length: usize,
    /// The units covered, as a view into the source.
    pub slice: T,
}

impl<T> PatternMatch<T> {
    /// Start and length as mathematical integers.
    pub open spec fn span(&self) -> Span {
        Span { start: self.index as int, length: self.length as int }
    }

    /// The record lies within a source of units `source`, and `view` holds
    /// exactly the units that it covers.
    pub open spec fn describes<U>(&self, source: Seq<U>, view: Seq<U>) -> bool {
        &&& self.index + self.length <= source.len()
        &&& self.index + self.length <= usize::MAX
        &&& view == source.subrange(self.index as int, self.index + self.length)
    }

    /// The index of the first unit covered.
    pub fn start(&self) -> (start: usize)
        ensures
            start == self.index,
            start == self.span().start,
    {
        self.index
    }

    /// The index just behind the last unit covered.
    pub fn end(&self) -> (end: usize)
        requires
            self.index + self.length <= usize::MAX,
        ensures
            end == self.index + self.length,
            end == self.span().end(),
    {
        self.index + self.length
    }

    /// The half-open interval of the indices covered.
    pub fn range(&self) -> (range: Range<usize>)
        requires
            self.index + self.length <= usize::MAX,
        ensures
            range.start == self.index,
            range.end == self.index + self.length,
    {
        self.index..self.index + self.length
    }
}

/// The places of a list of matches.
pub open spec fn spans<T>(matches: Seq<PatternMatch<T>>) -> Seq<Span> {
    Seq::new(matches.len(), |i: int| matches[i].span())
}

/// A source that can be searched for patterns of type `P`.
///
/// An implementation says what the units of a source and of a pattern are, how
/// two units compare, and how to find the first occurrence at or after an
/// offset. The other searches are built on that one and are the same for every
/// source.
///
/// Offsets, starts and lengths count units of the source: bytes for text,
/// elements for a slice. The empty pattern occurs nowhere, so no search ever
/// returns a match of length zero.
///
/// The searches for every occurrence return `None` when there is none, and never
/// an empty list.
pub trait PatternMatcher<'a, P: ?Sized> {
    /// What the source is indexed by.
    type Unit;

    /// The source as a sequence of units.
    spec fn units(&self) -> Seq<Self::Unit>;

    /// A pattern as a sequence of units.
    spec fn pattern_units(pattern: &P) -> Seq<Self::Unit>;

    /// When a unit of the source counts as equal to a unit of a pattern.
    spec fn unit_eq() -> spec_fn(Self::Unit, Self::Unit) -> bool;

    /// Whether comparing two units at run time computes `unit_eq`. Where it does
    /// not, a search still returns well-formed matches, but which ones is open.
    spec fn obeys_unit_eq() -> bool;

    /// The first occurrence of `pattern` that starts at `offset` or later.
    ///
    /// Returns `None` when there is none, in particular when `offset` is
    /// greater than the length of the source.
    fn find_first_from(&'a self, pattern: &P, offset: usize) -> (found: Option<
        PatternMatch<&'a Self>,
    >)
        ensures
            found matches Some(m) ==> {
                &&& m.describes(self.units(), m.slice.units())
                &&& offset <= m.index
                &&& 0 < m.length == Self::pattern_units(pattern).len()
            },
            Self::obeys_unit_eq() ==> (found is None <==> absent_from(
                Self::unit_eq(),
                self.units(),
                Self::pattern_units(pattern),
                offset as int,
            )),
            Self::obeys_unit_eq() ==> (found matches Some(m) ==> is_first_from(
                Self::unit_eq(),
                self.units(),
                Self::pattern_units(pattern),
                offset as int,
                m.index as int,
            )),
    ;

    /// The first occurrence of `pattern` in the source.
    ///
    /// The view of the match agrees with the pattern unit by unit, and the
    /// pattern occurs nowhere before the match.
    #[inline(always)]
    fn find_first(&'a self, pattern: &P) -> (found: Option<PatternMatch<&'a Self>>)
        ensures
            found matches Some(m) ==> {
                &&& m.describes(self.units(), m.slice.units())
                &&& 0 < m.length == Self::pattern_units(pattern).len()
            },
            Self::obeys_unit_eq() ==> (found is None <==> absent_from(
                Self::unit_eq(),
                self.units(),
                Self::pattern_units(pattern),
                0,
            )),
            Self::obeys_unit_eq() ==> (found matches Some(m) ==> {
                &&& same_units(Self::unit_eq(), m.slice.units(), Self::pattern_units(pattern))
                &&& forall|earlier: int|
                    0 <= earlier < m.index ==> !occurs_at(
                        Self::unit_eq(),
                        self.units(),
                        Self::pattern_units(pattern),
                        earlier,
                    )
                &&& is_first_from(
                    Self::unit_eq(),
                    self.units(),
                    Self::pattern_units(pattern),
                    0,
                    m.index as int,
                )
            }),
    {
        self.find_first_from(pattern, 0)
    }

    /// Every occurrence of `pattern` that a search from `offset` meets when,
    /// after each match, it goes on at the end of that match.
    ///
    /// The matches come in the order of their positions and do not overlap.
    /// Returns `None` when there is no occurrence from `offset` on.
    fn find_every_from(&'a self, pattern: &P, offset: usize) -> (found: Option<
        Vec<PatternMatch<&'a Self>>,
    >)
        ensures
            found matches Some(matches) ==> {
                &&& 0 < matches@.len()
                &&& forall|i: int|
                    0 <= i < matches@.len() ==> {
                        &&& (#[trigger] matches@[i]).describes(
                            self.units(),
                            matches@[i].slice.units(),
                        )
                        &&& offset <= matches@[i].index
                        &&& 0 < matches@[i].length == Self::pattern_units(pattern).len()
                    }
                &&& forall|i: int, j: int|
                    0 <= i < j < matches@.len() ==> {
                        &&& (#[trigger] matches@[i]).index + matches@[i].length
                            <= (#[trigger] matches@[j]).index
                        &&& matches@[i].index < matches@[j].index
                    }
            },
            Self::obeys_unit_eq() ==> (found is None <==> absent_from(
                Self::unit_eq(),
                self.units(),
                Self::pattern_units(pattern),
                offset as int,
            )),
            Self::obeys_unit_eq() ==> (found matches Some(matches) ==> spans(matches@)
                == every_from(
                Self::unit_eq(),
                self.units(),
                Self::pattern_units(pattern),
                offset as int,
            )),
    {
        let ghost eq = Self::unit_eq();
        let ghost source = self.units();
        let ghost units = Self::pattern_units(pattern);
        let mut total_offset: usize = offset;
        let mut matches: Vec<PatternMatch<&'a Self>> = Vec::new();
        proof {
            assert(spans(matches@) + every_from(eq, source, units, offset as int) =~= every_from(
                eq,
                source,
                units,
                offset as int,
            ));
        }
        loop
            invariant
                eq == Self::unit_eq(),
                source == self.units(),
                units == Self::pattern_units(pattern),
                offset <= total_offset,
                matches@.len() == 0 ==> total_offset == offset,
                forall|i: int|
                    0 <= i < matches@.len() ==> {
                        &&& (#[trigger] matches@[i]).describes(source, matches@[i].slice.units())
                        &&& offset <= matches@[i].index
                        &&& 0 < matches@[i].length == units.len()
                        &&& matches@[i].index + matches@[i].length <= total_offset
                    },
                forall|i: int, j: int|
                    0 <= i < j < matches@.len() ==> {
                        &&& (#[trigger] matches@[i]).index + matches@[i].length
                            <= (#[trigger] matches@[j]).index
                        &&& matches@[i].index < matches@[j].index
                    },
                Self::obeys_unit_eq() ==> every_from(eq, source, units, offset as int) == spans(
                    matches@,
                ) + every_from(eq, source, units, total_offset as int),
            ensures
                Self::obeys_unit_eq() ==> absent_from(eq, source, units, total_offset as int),
            decreases source.len() - total_offset,
        {
            proof {
                lemma_first_from(eq, source, units, total_offset as int);
            }
            match self.find_first_from(pattern, total_offset) {
                Some(found_match) => {
                    let ghost earlier = matches@;
                    let ghost cursor = total_offset as int;
                    total_offset = found_match.end();
                    matches.push(found_match);
                    proof {
                        if Self::obeys_unit_eq() {
                            assert(spans(matches@) =~= spans(earlier) + seq![found_match.span()]);
                            assert(spans(earlier) + every_from(eq, source, units, cursor)
                                =~= spans(matches@) + every_from(
                                eq,
                                source,
                                units,
                                total_offset as int,
                            ));
                        }
                    }
                },
                None => {
                    break ;
                },
            }
        }
        proof {
            if Self::obeys_unit_eq() {
                lemma_every_from_empty(eq, source, units, total_offset as int);
                lemma_every_from_empty(eq, source, units, offset as int);
                assert(every_from(eq, source, units, offset as int) =~= spans(matches@));
            }
        }
        if matches.is_empty() {
            return None;
        }
        Some(matches)
    }

    /// Every occurrence of `pattern` that a search from the start of the source
    /// meets; see [`PatternMatcher::find_every_from`].
    #[inline(always)]
    fn find_every(&'a self, pattern: &P) -> (found: Option<Vec<PatternMatch<&'a Self>>>)
        ensures
            found matches Some(matches) ==> {
                &&& 0 < matches@.len()
                &&& forall|i: int|
                    0 <= i < matches@.len() ==> {
                        &&& (#[trigger] matches@[i]).describes(
                            self.units(),
                            matches@[i].slice.units(),
                        )
                        &&& 0 < matches@[i].length == Self::pattern_units(pattern).len()
                    }
                &&& forall|i: int, j: int|
                    0 <= i < j < matches@.len() ==> {
                        &&& (#[trigger] matches@[i]).index + matches@[i].length
                            <= (#[trigger] matches@[j]).index
                        &&& matches@[i].index < matches@[j].index
                    }
            },
            Self::obeys_unit_eq() ==> (found is None <==> absent_from(
                Self::unit_eq(),
                self.units(),
                Self::pattern_units(pattern),
                0,
            )),
            Self::obeys_unit_eq() ==> (found matches Some(matches) ==> spans(matches@)
                == every_from(Self::unit_eq(), self.units(), Self::pattern_units(pattern), 0)),
    {
        self.find_every_from(pattern, 0)
    }

    /// The earliest first occurrence, at or after `offset`, of any of the
    /// patterns.
    ///
    /// Each pattern is searched for on its own. Of the matches found, the one
    /// with the smallest start is returned; where several start there, the one
    /// of the pattern that comes first in `patterns`. Returns `None` when no
    /// pattern occurs from `offset` on.
    fn find_any_from(&'a self, patterns: &[&P], offset: usize) -> (found: Option<
        PatternMatch<&'a Self>,
    >)
        ensures
            found matches Some(m) ==> {
                &&& m.describes(self.units(), m.slice.units())
                &&& offset <= m.index
                &&& 0 < m.length
            },
            Self::obeys_unit_eq() ==> (found is None <==> forall|k: int|
                0 <= k < patterns@.len() ==> absent_from(
                    Self::unit_eq(),
                    self.units(),
                    #[trigger] Self::pattern_units(patterns@[k]),
                    offset as int,
                )),
            Self::obeys_unit_eq() ==> (found matches Some(m) ==> exists|winner: int|
                {
                    &&& is_earliest(
                        Self::unit_eq(),
                        self.units(),
                        Seq::new(patterns@.len(), |k: int| Self::pattern_units(patterns@[k])),
                        offset as int,
                        winner,
                        m.index as int,
                    )
                    &&& m.length == (#[trigger] Self::pattern_units(patterns@[winner])).len()
                }),
    {
        let ghost eq = Self::unit_eq();
        let ghost source = self.units();
        let ghost listed = Seq::new(patterns@.len(), |k: int| Self::pattern_units(patterns@[k]));
        let ghost mut winner: int = 0;
        let mut earliest_match: Option<PatternMatch<&'a Self>> = None;
        let mut earliest_index: usize = usize::MAX;
        let mut next: usize = 0;
        while next < patterns.len()
            invariant
                eq == Self::unit_eq(),
                source == self.units(),
                listed == Seq::new(patterns@.len(), |k: int| Self::pattern_units(patterns@[k])),
                next <= patterns@.len(),
                earliest_match matches Some(m) ==> {
                    &&& m.describes(source, m.slice.units())
                    &&& offset <= m.index == earliest_index
                    &&& 0 < m.length
                },
                Self::obeys_unit_eq() ==> (earliest_match is None ==> forall|k: int|
                    0 <= k < next ==> absent_from(eq, source, #[trigger] listed[k], offset as int)),
                Self::obeys_unit_eq() ==> (earliest_match matches Some(m) ==> {
                    &&& is_earliest(
                        eq,
                        source,
                        listed.take(next as int),
                        offset as int,
                        winner,
                        m.index as int,
                    )
                    &&& m.length == listed[winner].len()
                }),
            decreases patterns@.len() - next,
        {
            let ghost seen = listed.take(next as int);
            let ghost grown = listed.take(next + 1);
            proof {
                lemma_first_from(eq, source, listed[next as int], offset as int);
                assert forall|k: int| 0 <= k < next implies seen[k] == grown[k] by {}
                assert(grown[next as int] == listed[next as int]);
            }
            if let Some(current_match) = self.find_first_from(patterns[next], offset) {
                if earliest_match.is_none() || current_match.index < earliest_index {
                    earliest_index = current_match.index;
                    earliest_match = Some(current_match);
                    proof {
                        if Self::obeys_unit_eq() {
                            assert forall|k: int| 0 <= k < next implies (#[trigger] first_from(
                                eq,
                                source,
                                grown[k],
                                offset as int,
                            ) matches Some(start) ==> earliest_index < start) by {
                                lemma_first_from(eq, source, listed[k], offset as int);
                                assert(seen[k] == grown[k]);
                            }
                        }
                        winner = next as int;
                    }
                }
            }
            next += 1;
        }
        proof {
            assert(listed.take(next as int) =~= listed);
            if Self::obeys_unit_eq() {
                if earliest_match is Some {
                    lemma_first_from(eq, source, listed[winner], offset as int);
                }
                if forall|k: int|
                    0 <= k < patterns@.len() ==> absent_from(
                        eq,
                        source,
                        #[trigger] Self::pattern_units(patterns@[k]),
                        offset as int,
                    ) {
                    if earliest_match is Some {
                        assert(absent_from(
                            eq,
                            source,
                            Self::pattern_units(patterns@[winner]),
                            offset as int,
                        ));
                    }
                } else {
                    let k = choose|k: int|
                        0 <= k < patterns@.len() && !absent_from(
                            eq,
                            source,
                            #[trigger] Self::pattern_units(patterns@[k]),
                            offset as int,
                        );
                    assert(listed[k] == Self::pattern_units(patterns@[k]));
                }
            }
        }
        earliest_match
    }

    /// The earliest first occurrence of any of the patterns; see
    /// [`PatternMatcher::find_any_from`].
    #[inline(always)]
    fn find_any(&'a self, patterns: &[&P]) -> (found: Option<PatternMatch<&'a Self>>)
        ensures
            found matches Some(m) ==> {
                &&& m.describes(self.units(), m.slice.units())
                &&& 0 < m.length
            },
            Self::obeys_unit_eq() ==> (found is None <==> forall|k: int|
                0 <= k < patterns@.len() ==> absent_from(
                    Self::unit_eq(),
                    self.units(),
                    #[trigger] Self::pattern_units(patterns@[k]),
                    0,
                )),
            Self::obeys_unit_eq() ==> (found matches Some(m) ==> exists|winner: int|
                {
                    &&& is_earliest(
                        Self::unit_eq(),
                        self.units(),
                        Seq::new(patterns@.len(), |k: int| Self::pattern_units(patterns@[k])),
                        0,
                        winner,
                        m.index as int,
                    )
                    &&& m.length == (#[trigger] Self::pattern_units(patterns@[winner])).len()
                }),
    {
        self.find_any_from(patterns, 0)
    }

    /// Every occurrence of every pattern: what
    /// [`PatternMatcher::find_every_from`] finds for the first pattern, then
    /// what it finds for the second, and so on.
    ///
    /// The matches are grouped by pattern, in the order of `patterns`. Within a
    /// group they come in the order of their positions; the list as a whole is
    /// not sorted by position. Returns `None` when no pattern occurs from
    /// `offset` on.
    fn find_all_from(&'a self, patterns: &[&P], offset: usize) -> (found: Option<
        Vec<PatternMatch<&'a Self>>,
    >)
        ensures
            found matches Some(matches) ==> {
                &&& 0 < matches@.len()
                &&& forall|i: int|
                    0 <= i < matches@.len() ==> {
                        &&& (#[trigger] matches@[i]).describes(
                            self.units(),
                            matches@[i].slice.units(),
                        )
                        &&& offset <= matches@[i].index
                        &&& 0 < matches@[i].length
                    }
            },
            Self::obeys_unit_eq() ==> (found is None <==> forall|k: int|
                0 <= k < patterns@.len() ==> absent_from(
                    Self::unit_eq(),
                    self.units(),
                    #[trigger] Self::pattern_units(patterns@[k]),
                    offset as int,
                )),
            Self::obeys_unit_eq() ==> (found matches Some(matches) ==> spans(matches@) == all_from(
                Self::unit_eq(),
                self.units(),
                Seq::new(patterns@.len(), |k: int| Self::pattern_units(patterns@[k])),
                offset as int,
            )),
    {
        let ghost eq = Self::unit_eq();
        let ghost source = self.units();
        let ghost listed = Seq::new(patterns@.len(), |k: int| Self::pattern_units(patterns@[k]));
        let mut matches: Vec<PatternMatch<&'a Self>> = Vec::new();
        let mut next: usize = 0;
        proof {
            assert(spans(matches@) =~= all_from(eq, source, listed.take(0), offset as int));
        }
        while next < patterns.len()
            invariant
                eq == Self::unit_eq(),
                source == self.units(),
                listed == Seq::new(patterns@.len(), |k: int| Self::pattern_units(patterns@[k])),
                next <= patterns@.len(),
                forall|i: int|
                    0 <= i < matches@.len() ==> {
                        &&& (#[trigger] matches@[i]).describes(source, matches@[i].slice.units())
                        &&& offset <= matches@[i].index
                        &&& 0 < matches@[i].length
                    },
                Self::obeys_unit_eq() ==> (matches@.len() == 0 <==> forall|k: int|
                    0 <= k < next ==> absent_from(eq, source, #[trigger] listed[k], offset as int)),
                Self::obeys_unit_eq() ==> spans(matches@) == all_from(
                    eq,
                    source,
                    listed.take(next as int),
                    offset as int,
                ),
            decreases patterns@.len() - next,
        {
            let ghost earlier = matches@;
            proof {
                lemma_every_from_empty(eq, source, listed[next as int], offset as int);
                assert(listed.take(next + 1).drop_last() =~= listed.take(next as int));
                assert(listed.take(next + 1).last() == listed[next as int]);
            }
            if let Some(mut found_matches) = self.find_every_from(patterns[next], offset) {
                let ghost group = found_matches@;
                matches.append(&mut found_matches);
                proof {
                    assert(spans(matches@) =~= spans(earlier) + spans(group));
                }
            }
            proof {
                if Self::obeys_unit_eq() {
                    assert(spans(matches@) =~= spans(earlier) + every_from(
                        eq,
                        source,
                        listed[next as int],
                        offset as int,
                    ));
                }
            }
            next += 1;
        }
        proof {
            assert(listed.take(next as int) =~= listed);
            if Self::obeys_unit_eq() {
                if forall|k: int|
                    0 <= k < patterns@.len() ==> absent_from(
                        eq,
                        source,
                        #[trigger] Self::pattern_units(patterns@[k]),
                        offset as int,
                    ) {
                    assert forall|k: int| 0 <= k < next implies absent_from(
                        eq,
                        source,
                        #[trigger] listed[k],
                        offset as int,
                    ) by {
                        assert(listed[k] == Self::pattern_units(patterns@[k]));
                    }
                } else {
                    let k = choose|k: int|
                        0 <= k < patterns@.len() && !absent_from(
                            eq,
                            source,
                            #[trigger] Self::pattern_units(patterns@[k]),
                            offset as int,
                        );
                    assert(listed[k] == Self::pattern_units(patterns@[k]));
                }
            }
        }
        if matches.is_empty() {
            return None;
        }
        Some(matches)
    }

    /// Every occurrence of every pattern, grouped by pattern; see
    /// [`PatternMatcher::find_all_from`].
    #[inline(always)]
    fn find_all(&'a self, patterns: &[&P]) -> (found: Option<Vec<PatternMatch<&'a Self>>>)
        ensures
            found matches Some(matches) ==> {
                &&& 0 < matches@.len()
                &&& forall|i: int|
                    0 <= i < matches@.len() ==> {
                        &&& (#[trigger] matches@[i]).describes(
                            self.units(),
                            matches@[i].slice.units(),
                        )
                        &&& 0 < matches@[i].length
                    }
            },
            Self::obeys_unit_eq() ==> (found is None <==> forall|k: int|
                0 <= k < patterns@.len() ==> absent_from(
                    Self::unit_eq(),
                    self.units(),
                    #[trigger] Self::pattern_units(patterns@[k]),
                    0,
                )),
            Self::obeys_unit_eq() ==> (found matches Some(matches) ==> spans(matches@) == all_from(
                Self::unit_eq(),
                self.units(),
                Seq::new(patterns@.len(), |k: int| Self::pattern_units(patterns@[k])),
                0,
            )),
    {
        self.find_all_from(patterns, 0)
    }
}

} // verus!
