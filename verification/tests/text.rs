use pattern_matcher::pattern::{PatternMatch, PatternMatcher};

fn spans(matches: &[PatternMatch<&str>]) -> Vec<(usize, usize, String)> {
    let mut out = Vec::new();
    for m in matches {
        out.push((m.start(), m.end(), m.slice.to_string()));
    }
    out
}

#[test]
fn text_first_match_views_the_pattern() {
    let found = "hello world".find_first("world").unwrap();
    assert_eq!(found.index, 6);
    assert_eq!(found.length, 5);
    assert_eq!(found.range(), 6..11);
    assert_eq!(found.slice, "world");
}

#[test]
fn text_first_match_is_the_leftmost() {
    let found = "abcabc".find_first("bc").unwrap();
    assert_eq!((found.start(), found.end()), (1, 3));
    assert!("abcabc".find_first("cb").is_none());
}

#[test]
fn text_first_match_from_an_offset() {
    let s = "hello world";
    assert_eq!(s.find_first_from("o", 0).unwrap().start(), 4);
    assert_eq!(s.find_first_from("o", 4).unwrap().start(), 4);
    assert_eq!(s.find_first_from("o", 5).unwrap().start(), 7);
    assert!(s.find_first_from("o", 8).is_none());
}

#[test]
fn text_offset_at_or_behind_the_end_finds_nothing() {
    let s = "abc";
    assert_eq!(s.find_first_from("c", 2).unwrap().start(), 2);
    assert!(s.find_first_from("c", 3).is_none());
    assert!(s.find_first_from("c", 4).is_none());
    assert!(s.find_first_from("c", usize::MAX).is_none());
    assert!(s.find_every_from("c", 17).is_none());
    assert!("".find_first("c").is_none());
}

#[test]
fn text_empty_pattern_occurs_nowhere() {
    assert!("abc".find_first("").is_none());
    assert!("abc".find_first_from("", 3).is_none());
    assert!("".find_first("").is_none());
    assert!("abc".find_every("").is_none());
    assert!("abc".find_any(&[""]).is_none());
    assert!("abc".find_all(&["", ""]).is_none());
    let found = "abc".find_all(&["", "b"]).unwrap();
    assert_eq!(spans(&found), vec![(1, 2, "b".to_string())]);
}

#[test]
fn text_every_match() {
    let found = "hello world".find_every("l").unwrap();
    assert_eq!(
        spans(&found),
        vec![(2, 3, "l".to_string()), (3, 4, "l".to_string()), (9, 10, "l".to_string())]
    );
    let found = "hello world".find_every_from("l", 3).unwrap();
    assert_eq!(spans(&found), vec![(3, 4, "l".to_string()), (9, 10, "l".to_string())]);
    assert!("hello world".find_every("x").is_none());
}

#[test]
fn text_self_overlapping_pattern_is_met_every_other_time() {
    let found = "aaaa".find_every("aa").unwrap();
    assert_eq!(spans(&found), vec![(0, 2, "aa".to_string()), (2, 4, "aa".to_string())]);
    let found = "aaaaa".find_every_from("aa", 1).unwrap();
    assert_eq!(spans(&found), vec![(1, 3, "aa".to_string()), (3, 5, "aa".to_string())]);
}

#[test]
fn text_positions_count_bytes() {
    let s = "aé€b€";
    let found = s.find_first("€").unwrap();
    assert_eq!((found.start(), found.end(), found.length), (3, 6, 3));
    assert_eq!(found.slice, "€");
    let found = s.find_every("€").unwrap();
    assert_eq!(spans(&found), vec![(3, 6, "€".to_string()), (7, 10, "€".to_string())]);
    assert_eq!(s.find_first("b").unwrap().start(), 6);
}

#[test]
fn text_offset_inside_a_character_searches_from_the_next_one() {
    let s = "aé€b€";
    assert_eq!(s.find_first_from("€", 4).unwrap().start(), 7);
    assert_eq!(s.find_first_from("€", 5).unwrap().start(), 7);
    assert_eq!(s.find_first_from("b", 4).unwrap().start(), 6);
    assert_eq!(s.find_first_from("é", 1).unwrap().start(), 1);
    assert!(s.find_first_from("é", 2).is_none());
    assert!(s.find_first_from("€", 8).is_none());
    assert!(s.find_first_from("€", 9).is_none());
}

#[test]
fn text_any_takes_the_smallest_start() {
    let found = "hello world".find_any(&["world", "lo", "zz"]).unwrap();
    assert_eq!((found.start(), found.end()), (3, 5));
    assert_eq!(found.slice, "lo");
    assert!("hello world".find_any(&["foo", "bar"]).is_none());
    let none: [&str; 0] = [];
    assert!("hello world".find_any(&none).is_none());
}

#[test]
fn text_any_on_a_tie_takes_the_pattern_listed_first() {
    let found = "hello".find_any(&["he", "hello"]).unwrap();
    assert_eq!((found.start(), found.end()), (0, 2));
    assert_eq!(found.slice, "he");
    let found = "hello".find_any(&["hello", "he"]).unwrap();
    assert_eq!((found.start(), found.end()), (0, 5));
    assert_eq!(found.slice, "hello");
}

#[test]
fn text_any_from_an_offset() {
    let s = "hello world";
    let found = s.find_any_from(&["l", "o"], 4).unwrap();
    assert_eq!((found.start(), found.slice), (4, "o"));
    let found = s.find_any_from(&["l", "o"], 8).unwrap();
    assert_eq!((found.start(), found.slice), (9, "l"));
    assert!(s.find_any_from(&["l", "o"], 10).is_none());
}

#[test]
fn text_all_is_grouped_by_pattern_and_not_sorted() {
    let found = "hello world".find_all(&["o", "l"]).unwrap();
    assert_eq!(
        spans(&found),
        vec![
            (4, 5, "o".to_string()),
            (7, 8, "o".to_string()),
            (2, 3, "l".to_string()),
            (3, 4, "l".to_string()),
            (9, 10, "l".to_string()),
        ]
    );
    assert!(found[1].start() > found[2].start());
}

#[test]
fn text_all_from_an_offset() {
    let found = "hello world".find_all_from(&["l", "o", "q"], 5).unwrap();
    assert_eq!(spans(&found), vec![(9, 10, "l".to_string()), (7, 8, "o".to_string())]);
    assert!("hello world".find_all_from(&["l", "o"], 10).is_none());
    let none: [&str; 0] = [];
    assert!("hello world".find_all(&none).is_none());
}

#[test]
fn text_owned_strings_are_searched_through_their_slices() {
    let source = String::from("one two one");
    let pattern = String::from("one");
    let found = source.as_str().find_every(pattern.as_str()).unwrap();
    assert_eq!(spans(&found), vec![(0, 3, "one".to_string()), (8, 11, "one".to_string())]);
}
