use rhis::history::{Command, Features, History};
use rhis::ranker::Scorer;
use rhis::text::{like_anywhere, like_match, match_bounds};

struct ByCount;

impl Scorer for ByCount {
    fn score(&self, features: &Features) -> i64 {
        features.occurrences_factor.num as i64
    }
}

fn letters(s: &str) -> Vec<char> {
    s.chars().collect()
}

fn found_names(found: &[Command]) -> Vec<&str> {
    found.iter().map(|c| c.cmd.as_str()).collect()
}

fn logged() -> History {
    let mut history = History::new();
    history.add("git status", "S", "/r", 0, 10, true);
    history.add("git push", "S", "/r", 0, 20, true);
    history.add("git push", "S", "/r", 0, 30, true);
    history.add("git push", "S", "/r", 0, 40, true);
    history.add("make", "S", "/r", 0, 50, true);
    history.add("git status", "S", "/r", 0, 60, true);
    history.add("Git log", "S", "/r", 0, 70, true);
    history.build_cache_table("/r", true, 100);
    history.rank_rows(&ByCount);
    history
}

#[test]
fn like_matches_as_sql_does() {
    assert!(like_match(&letters("abc"), &letters("abc")));
    assert!(like_match(&letters("ABC"), &letters("abc")));
    assert!(like_match(&letters("abc"), &letters("aBc")));
    assert!(!like_match(&letters("abc"), &letters("abcd")));
    assert!(!like_match(&letters("abc"), &letters("ab")));
    assert!(like_match(&letters("a%"), &letters("abcd")));
    assert!(like_match(&letters("%d"), &letters("abcd")));
    assert!(like_match(&letters("a%d"), &letters("ad")));
    assert!(like_match(&letters("a_c"), &letters("abc")));
    assert!(!like_match(&letters("a_c"), &letters("ac")));
    assert!(like_match(&letters("%"), &letters("")));
    assert!(like_match(&letters(""), &letters("")));
    assert!(!like_match(&letters(""), &letters("a")));
    assert!(!like_match(&letters("_"), &letters("")));
    assert!(like_match(&letters("%%"), &letters("anything")));
    assert!(like_match(&letters("_"), &letters("é")));
    assert!(!like_match(&letters("É"), &letters("é")));
    assert!(like_match(&letters("a%b%c"), &letters("a--b--b--c")));
    assert!(!like_match(&letters("a%b%c"), &letters("a--c--b")));
}

#[test]
fn like_anywhere_asks_for_the_pattern_somewhere() {
    assert!(like_anywhere(&letters("it p"), &letters("git push")));
    assert!(like_anywhere(&letters("GIT"), &letters("git push")));
    assert!(like_anywhere(&letters(""), &letters("git push")));
    assert!(like_anywhere(&letters("g_t"), &letters("git push")));
    assert!(!like_anywhere(&letters("pull"), &letters("git push")));
}

#[test]
fn match_bounds_finds_every_place() {
    assert_eq!(match_bounds(b"abcabc", b"bc"), vec![(1, 3), (4, 6)]);
    assert_eq!(match_bounds(b"aaaa", b"aa"), vec![(0, 2), (2, 4)]);
    assert_eq!(match_bounds(b"aaa", b"aa"), vec![(0, 2)]);
    assert_eq!(match_bounds(b"abc", b"abc"), vec![(0, 3)]);
    assert_eq!(match_bounds(b"abc", b"abcd"), vec![]);
    assert_eq!(match_bounds(b"abc", b"x"), vec![]);
    assert_eq!(match_bounds(b"abc", b""), vec![]);
    assert_eq!(match_bounds(b"", b""), vec![]);
    assert_eq!(match_bounds("é é".as_bytes(), "é".as_bytes()), vec![(0, 2), (3, 5)]);
}

#[test]
fn the_matches_hold_the_pattern_at_their_bounds() {
    let history = logged();
    for pattern in ["git", "s", "t ", "push", "g", "ma"] {
        let found = history.find_matches(pattern, 40, true);
        assert!(!found.is_empty());
        for m in found.iter() {
            assert!(!m.match_bounds.is_empty());
            let mut last = 0;
            for &(start, end) in m.match_bounds.iter() {
                assert!(last <= start && start < end && end <= m.cmd.len());
                assert_eq!(&m.cmd[start..end], pattern);
                last = end;
            }
            assert_eq!(m.cmd.matches(pattern).count(), m.match_bounds.len());
        }
    }
}

#[test]
fn ordered_by_rank() {
    let history = logged();
    let found = history.find_matches("git", 40, true);
    assert_eq!(found_names(&found), vec!["git push", "git status"]);
    assert_eq!(found[0].match_bounds, vec![(0, 3)]);
    assert_eq!(found[0].last_run, 40);
    assert_eq!(found[1].last_run, 60);
}

#[test]
fn ordered_by_time() {
    let history = logged();
    let found = history.find_matches("git", 40, false);
    assert_eq!(found_names(&found), vec!["git status", "git push"]);
}

#[test]
fn rows_of_the_same_rank_stay_in_the_order_of_the_table() {
    let history = logged();
    let found = history.find_matches("a", 40, true);
    assert_eq!(found_names(&found), vec!["git status", "make"]);
    let table: Vec<&str> = history.contextual_commands.iter().map(|r| r.cmd.as_str()).collect();
    assert_eq!(table, vec!["Git log", "git status", "make", "git push"]);
}

#[test]
fn the_limit_counts_the_rows_that_are_like_the_pattern() {
    let history = logged();
    assert_eq!(found_names(&history.find_matches("git", 1, true)), vec!["git push"]);
    assert_eq!(found_names(&history.find_matches("git", 2, true)), vec!["git push", "git status"]);
    assert_eq!(found_names(&history.find_matches("git", 0, true)), Vec::<&str>::new());
    assert_eq!(found_names(&history.find_matches("git", -1, true)), vec!["git push", "git status"]);
    // By time "Git log" comes first; it is like the pattern but does not
    // hold it, so it takes a place and is then left out.
    assert_eq!(found_names(&history.find_matches("git", 1, false)), Vec::<&str>::new());
    assert_eq!(found_names(&history.find_matches("git", 2, false)), vec!["git status"]);
}

#[test]
fn an_empty_pattern_finds_nothing() {
    let history = logged();
    assert!(history.find_matches("", 40, true).is_empty());
    assert!(history.find_matches("", -1, false).is_empty());
}

#[test]
fn a_pattern_that_stands_nowhere_finds_nothing() {
    let history = logged();
    assert!(history.find_matches("zzz", 40, true).is_empty());
    assert!(history.find_matches("%", 40, true).is_empty());
}

#[test]
fn a_recorded_command_is_found_by_each_of_its_beginnings() {
    let cmd = "échelle --x 'a b'";
    let mut history = History::new();
    history.add(cmd, "S", "/d", 0, 7, true);
    for (dir, anywhere) in [("/d", false), ("/d", true), ("/other", true)] {
        history.build_cache_table(dir, anywhere, 8);
        for k in 1..=cmd.chars().count() {
            let prefix: String = cmd.chars().take(k).collect();
            for by_rank in [true, false] {
                let found = history.find_matches(&prefix, 40, by_rank);
                assert_eq!(found_names(&found), vec![cmd]);
                assert_eq!(found[0].match_bounds[0], (0, prefix.len()));
            }
        }
    }
}
