use rhis::fixed_length_grapheme_string::FixedLengthGraphemeString;

#[test]
fn a_short_text_is_kept_whole() {
    let s = FixedLengthGraphemeString::new("hello", 10);
    assert_eq!(s.string, "hello");
    assert_eq!(s.len, 5);
    assert_eq!(s.max_grapheme_length, 10);
}

#[test]
fn a_text_that_just_fits_is_kept_whole() {
    let s = FixedLengthGraphemeString::new("hello", 5);
    assert_eq!(s.string, "hello");
    assert_eq!(s.len, 5);
}

#[test]
fn a_long_text_is_cut_and_ends_in_three_dots() {
    let s = FixedLengthGraphemeString::new("hello world", 8);
    assert_eq!(s.string, "hello...");
    assert_eq!(s.len, 9);
}

#[test]
fn a_cut_text_takes_nothing_more() {
    let mut s = FixedLengthGraphemeString::new("hello world", 8);
    s.push_grapheme_str("again");
    assert_eq!(s.string, "hello...");
}

#[test]
fn pushing_counts_clusters_not_characters() {
    let mut s = FixedLengthGraphemeString::empty(3);
    s.push_grapheme_str("e\u{301}");
    s.push_grapheme_str("ab");
    assert_eq!(s.string, "e\u{301}ab");
    assert_eq!(s.len, 3);
    s.push_grapheme_str("c");
    assert_eq!(s.string, "...");
    assert_eq!(s.len, 4);
}

#[test]
fn with_room_for_less_than_the_dots_only_the_dots_stay() {
    let s = FixedLengthGraphemeString::new("abcdef", 2);
    assert_eq!(s.string, "...");
}

#[test]
fn push_str_appends_without_counting() {
    let mut s = FixedLengthGraphemeString::empty(2);
    s.push_str("abcdef");
    assert_eq!(s.string, "abcdef");
    assert_eq!(s.len, 0);
}
