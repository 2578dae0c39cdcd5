use rhis::text::{
    chars_of, replace, split, starts_with, string_between, string_of, trim, trim_marked,
};

fn chars(s: &str) -> Vec<char> {
    s.chars().collect()
}

#[test]
fn chars_and_strings() {
    assert_eq!(chars_of("aé"), vec!['a', 'é']);
    assert_eq!(string_of(&chars("hello"), 2), "llo");
    assert_eq!(string_of(&chars("hello"), 5), "");
    assert_eq!(string_between(&chars("hello"), 1, 3), "el");
    assert!(starts_with(&chars("rhis add"), &chars("rhis")));
    assert!(!starts_with(&chars("rhi"), &chars("rhis")));
    assert!(starts_with(&chars("x"), &chars("")));
}

#[test]
fn trim_takes_white_space_from_both_ends() {
    assert_eq!(trim(&chars("  a b \t\n")), "a b");
    assert_eq!(trim(&chars("a")), "a");
    assert_eq!(trim(&chars("   ")), "");
    assert_eq!(trim(&chars("")), "");
    assert_eq!(trim(&chars("\u{a0}x\u{2003}")), "x");
}

#[test]
fn trim_marked_goes_by_the_marks() {
    assert_eq!(trim_marked(&chars("abcd"), &vec![true, false, true, true]), "b");
    assert_eq!(trim_marked(&chars("abcd"), &vec![false, true, true, false]), "abcd");
    assert_eq!(trim_marked(&chars("ab"), &vec![true, true]), "");
}

#[test]
fn split_gives_what_stands_between_the_separators() {
    let parts = |s: &str| -> Vec<String> {
        split(&chars(s), ',').into_iter().map(|p| p.into_iter().collect()).collect()
    };
    assert_eq!(parts("a,b"), vec!["a", "b"]);
    assert_eq!(parts(""), vec![""]);
    assert_eq!(parts(","), vec!["", ""]);
    assert_eq!(parts("a,,b,"), vec!["a", "", "b", ""]);
}

#[test]
fn replace_puts_one_text_in_the_place_of_another() {
    let r = |t: &str, a: &str, b: &str| -> String {
        replace(&chars(t), &chars(a), &chars(b)).into_iter().collect()
    };
    assert_eq!(r("2years", "years", "y"), "2y");
    assert_eq!(r("aaa", "aa", "b"), "ba");
    assert_eq!(r("abcabc", "bc", ""), "aa");
    assert_eq!(r("abc", "x", "y"), "abc");
    assert_eq!(r("abc", "", "y"), "abc");
    assert_eq!(r("", "a", "b"), "");
}
