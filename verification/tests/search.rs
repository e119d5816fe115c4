use structure_sync::search::{find_from, matches_at};

#[test]
fn finds_the_first_occurrence() {
    assert_eq!(find_from(b"abcabc", b"bc", 0), Some(1));
    assert_eq!(find_from(b"abcabc", b"abc", 0), Some(0));
    assert_eq!(find_from(b"abcabc", b"c", 0), Some(2));
}

#[test]
fn search_begins_at_the_given_offset() {
    assert_eq!(find_from(b"abcabc", b"bc", 1), Some(1));
    assert_eq!(find_from(b"abcabc", b"bc", 2), Some(4));
    assert_eq!(find_from(b"abcabc", b"bc", 4), Some(4));
    assert_eq!(find_from(b"abcabc", b"bc", 5), None);
}

#[test]
fn a_needle_that_is_absent_is_not_found() {
    assert_eq!(find_from(b"abcabc", b"cb", 0), None);
    assert_eq!(find_from(b"abc", b"abcd", 0), None);
    assert_eq!(find_from(b"", b"a", 0), None);
}

#[test]
fn a_needle_that_ends_the_haystack_is_found() {
    assert_eq!(find_from(b"xxabc", b"abc", 0), Some(2));
    assert_eq!(find_from(b"abc", b"abc", 0), Some(0));
    assert_eq!(find_from(b"abc", b"abc", 1), None);
}

#[test]
fn a_search_from_behind_the_end_finds_nothing() {
    assert_eq!(find_from(b"abc", b"c", 3), None);
    assert_eq!(find_from(b"abc", b"c", 100), None);
    assert_eq!(find_from(b"abc", b"c", usize::MAX), None);
}

#[test]
fn the_empty_needle_stands_everywhere() {
    assert_eq!(find_from(b"abc", b"", 0), Some(0));
    assert_eq!(find_from(b"abc", b"", 2), Some(2));
    assert_eq!(find_from(b"abc", b"", 3), Some(3));
    assert_eq!(find_from(b"abc", b"", 4), None);
    assert_eq!(find_from(b"", b"", 0), Some(0));
}

#[test]
fn a_partial_match_does_not_hide_the_match_behind_it() {
    assert_eq!(find_from(b"aaab", b"aab", 0), Some(1));
    assert_eq!(find_from(b"</code </code a>", b"</code a>", 0), Some(7));
}

#[test]
fn matches_are_told_offset_by_offset() {
    assert!(matches_at(b"abcabc", b"bc", 1));
    assert!(!matches_at(b"abcabc", b"bc", 2));
    assert!(matches_at(b"abcabc", b"bc", 4));
    assert!(!matches_at(b"abcabc", b"bc", 5));
    assert!(!matches_at(b"abcabc", b"bc", usize::MAX));
    assert!(matches_at(b"abc", b"", 3));
    assert!(!matches_at(b"abc", b"", 4));
}
