use pattern_matcher::pattern::{PatternMatch, PatternMatcher};

fn places<T>(matches: &[PatternMatch<T>]) -> Vec<(usize, usize)> {
    let mut out = Vec::new();
    for m in matches {
        out.push((m.start(), m.end()));
    }
    out
}

#[test]
fn elements_every_match_is_found_without_overlap() {
    let source = [1, 2, 3, 1, 2, 3];
    let pattern = [1, 2];
    let found = source[..].find_every(&pattern[..]).unwrap();
    assert_eq!(places(&found), vec![(0, 2), (3, 5)]);
    assert_eq!(found[0].slice, &[1, 2][..]);
    assert_eq!(found[1].slice, &[1, 2][..]);
    assert_eq!(found[0].range(), 0..2);
    assert_eq!(found[1].range(), 3..5);
}

#[test]
fn elements_first_match_is_the_leftmost() {
    let source = [7, 1, 2, 1, 2];
    let pattern = [1, 2];
    let found = source[..].find_first(&pattern[..]).unwrap();
    assert_eq!(found.index, 1);
    assert_eq!(found.length, 2);
    assert_eq!(found.slice, &source[1..3]);
}

#[test]
fn elements_first_match_from_an_offset() {
    let source = [1, 2, 3, 1, 2, 3];
    let pattern = [1, 2];
    assert_eq!(source[..].find_first_from(&pattern[..], 0).unwrap().start(), 0);
    assert_eq!(source[..].find_first_from(&pattern[..], 1).unwrap().start(), 3);
    assert_eq!(source[..].find_first_from(&pattern[..], 3).unwrap().start(), 3);
    assert!(source[..].find_first_from(&pattern[..], 4).is_none());
}

#[test]
fn elements_offset_at_or_behind_the_end_finds_nothing() {
    let source = [1, 2, 3];
    let pattern = [3];
    assert_eq!(source[..].find_first_from(&pattern[..], 2).unwrap().start(), 2);
    assert!(source[..].find_first_from(&pattern[..], 3).is_none());
    assert!(source[..].find_first_from(&pattern[..], 4).is_none());
    assert!(source[..].find_first_from(&pattern[..], usize::MAX).is_none());
    assert!(source[..].find_every_from(&pattern[..], 3).is_none());
}

#[test]
fn elements_absent_pattern_finds_nothing() {
    let source = [1, 2, 3];
    let pattern = [2, 1];
    assert!(source[..].find_first(&pattern[..]).is_none());
    assert!(source[..].find_every(&pattern[..]).is_none());
    assert!(source[..].find_any(&[&pattern[..]]).is_none());
    assert!(source[..].find_all(&[&pattern[..]]).is_none());
}

#[test]
fn elements_pattern_longer_than_source_finds_nothing() {
    let source = [1, 2];
    let pattern = [1, 2, 3];
    assert!(source[..].find_first(&pattern[..]).is_none());
    let nothing: [i32; 0] = [];
    assert!(nothing[..].find_first(&pattern[..]).is_none());
}

#[test]
fn elements_empty_pattern_occurs_nowhere() {
    let source = [1, 2, 3];
    let pattern: [i32; 0] = [];
    assert!(source[..].find_first(&pattern[..]).is_none());
    assert!(source[..].find_first_from(&pattern[..], 3).is_none());
    assert!(source[..].find_every(&pattern[..]).is_none());
    assert!(source[..].find_any(&[&pattern[..]]).is_none());
    assert!(source[..].find_all(&[&pattern[..]]).is_none());
}

#[test]
fn elements_self_overlapping_pattern_is_met_every_other_time() {
    let source = [5, 5, 5, 5, 5];
    let pattern = [5, 5];
    let found = source[..].find_every(&pattern[..]).unwrap();
    assert_eq!(places(&found), vec![(0, 2), (2, 4)]);
    let found = source[..].find_every_from(&pattern[..], 1).unwrap();
    assert_eq!(places(&found), vec![(1, 3), (3, 5)]);
}

#[test]
fn elements_whole_source_is_a_match() {
    let source = [4, 5, 6];
    let found = source[..].find_every(&source[..]).unwrap();
    assert_eq!(places(&found), vec![(0, 3)]);
}

#[test]
fn elements_any_takes_the_smallest_start() {
    let source = [1, 2, 3, 4, 5];
    let late = [4, 5];
    let early = [2, 3];
    let absent = [9];
    let found = source[..].find_any(&[&late[..], &absent[..], &early[..]]).unwrap();
    assert_eq!((found.start(), found.end()), (1, 3));
    assert_eq!(found.slice, &[2, 3][..]);
}

#[test]
fn elements_any_on_a_tie_takes_the_pattern_listed_first() {
    let source = [1, 2, 3, 4];
    let short = [1, 2];
    let long = [1, 2, 3];
    let found = source[..].find_any(&[&short[..], &long[..]]).unwrap();
    assert_eq!((found.start(), found.length), (0, 2));
    let found = source[..].find_any(&[&long[..], &short[..]]).unwrap();
    assert_eq!((found.start(), found.length), (0, 3));
}

#[test]
fn elements_any_from_an_offset() {
    let source = [1, 2, 1, 2, 3];
    let a = [1, 2];
    let b = [3];
    assert_eq!(source[..].find_any_from(&[&a[..], &b[..]], 1).unwrap().start(), 2);
    assert_eq!(source[..].find_any_from(&[&a[..], &b[..]], 3).unwrap().start(), 4);
    assert!(source[..].find_any_from(&[&a[..], &b[..]], 5).is_none());
    let none: [&[i32]; 0] = [];
    assert!(source[..].find_any(&none).is_none());
}

#[test]
fn elements_all_is_grouped_by_pattern() {
    let source = [1, 2, 1, 2, 1];
    let two = [2];
    let one = [1];
    let found = source[..].find_all(&[&two[..], &one[..]]).unwrap();
    assert_eq!(places(&found), vec![(1, 2), (3, 4), (0, 1), (2, 3), (4, 5)]);
    let found = source[..].find_all_from(&[&two[..], &one[..]], 2).unwrap();
    assert_eq!(places(&found), vec![(3, 4), (2, 3), (4, 5)]);
    let none: [&[i32]; 0] = [];
    assert!(source[..].find_all(&none).is_none());
}

#[test]
fn elements_all_skips_patterns_that_do_not_occur() {
    let source = [1, 2, 3];
    let absent = [7];
    let three = [3];
    let found = source[..].find_all(&[&absent[..], &three[..], &absent[..]]).unwrap();
    assert_eq!(places(&found), vec![(2, 3)]);
}

#[test]
fn elements_are_compared_with_their_own_equality() {
    let source = [String::from("a"), String::from("b"), String::from("a")];
    let pattern = [String::from("b"), String::from("a")];
    let found = source[..].find_first(&pattern[..]).unwrap();
    assert_eq!((found.start(), found.end()), (1, 3));
}

#[test]
fn elements_matches_of_arrays_found_through_method_syntax() {
    let found = [1u8, 2, 3, 1, 2, 3].find_every(&[1u8, 2]).map(|ms| places(&ms));
    assert_eq!(found, Some(vec![(0, 2), (3, 5)]));
}
