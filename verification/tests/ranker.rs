use rhis::history::{ContextualCommand, Features, History, Ratio};
use rhis::ranker::Scorer;

fn ratio(num: u64, den: u64) -> Ratio {
    Ratio { num, den }
}

fn recorded() -> History {
    let mut history = History::new();
    history.add("make", "S", "/r", 0, 1000, true);
    history.record_selected_from_ui("make", "S", "/r");
    history.add("make", "S", "/r", 0, 1010, true);
    history.add("make", "S", "/s", 1, 1020, true);
    history.add("cargo build", "S", "/r", 0, 1030, true);
    history
}

fn context<'a>(history: &'a History, cmd: &str) -> &'a ContextualCommand {
    let found: Vec<&ContextualCommand> =
        history.contextual_commands.iter().filter(|r| r.cmd == cmd).collect();
    assert_eq!(found.len(), 1);
    found[0]
}

fn in_unit(r: &Ratio) -> bool {
    r.den > 0 && r.num <= r.den
}

fn all_in_unit(f: &Features) -> bool {
    in_unit(&f.age_factor)
        && in_unit(&f.length_factor)
        && in_unit(&f.exit_factor)
        && in_unit(&f.recent_failure_factor)
        && in_unit(&f.selected_dir_factor)
        && f.selected_dir_factor.num < f.selected_dir_factor.den
        && in_unit(&f.dir_factor)
        && in_unit(&f.overlap_factor)
        && in_unit(&f.immediate_overlap_factor)
        && in_unit(&f.selected_occurrences_factor)
        && in_unit(&f.occurrences_factor)
}

#[test]
fn factors_of_all_directories() {
    let mut history = recorded();
    history.build_cache_table("/r", true, 1100);
    let order: Vec<&str> = history.contextual_commands.iter().map(|r| r.cmd.as_str()).collect();
    assert_eq!(order, vec!["cargo build", "make"]);
    let make = context(&history, "make");
    assert_eq!(make.last_run, 1020);
    assert_eq!(make.rank, 0);
    let f = &make.features;
    assert_eq!(f.age_factor, ratio(10, 20));
    assert_eq!(f.length_factor, ratio(4, 11));
    assert_eq!(f.exit_factor, ratio(2, 3));
    assert_eq!(f.recent_failure_factor, ratio(1, 1));
    assert_eq!(f.dir_factor, ratio(2, 3));
    assert_eq!(f.selected_dir_factor, ratio(1, 2));
    assert_eq!(f.selected_occurrences_factor, ratio(1, 1));
    assert_eq!(f.occurrences_factor, ratio(3, 3));
    assert_eq!(f.overlap_factor, ratio(0, 1));
    assert_eq!(f.immediate_overlap_factor, ratio(0, 1));
    let cargo = context(&history, "cargo build");
    assert_eq!(cargo.last_run, 1030);
    let f = &cargo.features;
    assert_eq!(f.age_factor, ratio(0, 20));
    assert_eq!(f.length_factor, ratio(11, 11));
    assert_eq!(f.exit_factor, ratio(1, 1));
    assert_eq!(f.recent_failure_factor, ratio(0, 1));
    assert_eq!(f.dir_factor, ratio(1, 1));
    assert_eq!(f.selected_dir_factor, ratio(0, 1));
    assert_eq!(f.selected_occurrences_factor, ratio(0, 1));
    assert_eq!(f.occurrences_factor, ratio(1, 3));
}

#[test]
fn factors_of_one_directory() {
    let mut history = recorded();
    history.build_cache_table("/r", false, 1100);
    let order: Vec<&str> = history.contextual_commands.iter().map(|r| r.cmd.as_str()).collect();
    assert_eq!(order, vec!["cargo build", "make"]);
    let make = context(&history, "make");
    assert_eq!(make.last_run, 1010);
    let f = &make.features;
    assert_eq!(f.age_factor, ratio(20, 20));
    assert_eq!(f.length_factor, ratio(4, 11));
    assert_eq!(f.exit_factor, ratio(2, 2));
    assert_eq!(f.recent_failure_factor, ratio(0, 1));
    assert_eq!(f.dir_factor, ratio(2, 2));
    assert_eq!(f.selected_dir_factor, ratio(1, 2));
    assert_eq!(f.selected_occurrences_factor, ratio(1, 1));
    assert_eq!(f.occurrences_factor, ratio(2, 3));
}

#[test]
fn another_directory_sees_only_its_own_commands() {
    let mut history = recorded();
    history.build_cache_table("/s", false, 1100);
    assert_eq!(history.contextual_commands.len(), 1);
    let make = context(&history, "make");
    assert_eq!(make.last_run, 1020);
    assert_eq!(make.features.exit_factor, ratio(0, 1));
    assert_eq!(make.features.dir_factor, ratio(1, 1));
    assert_eq!(make.features.selected_dir_factor, ratio(0, 1));
    assert_eq!(make.features.occurrences_factor, ratio(1, 3));
    history.build_cache_table("/nowhere", false, 1100);
    assert!(history.contextual_commands.is_empty());
}

#[test]
fn the_directory_filter_is_a_like_pattern() {
    let mut history = History::new();
    history.add("make", "S", "/Home/a", 0, 1, true);
    history.add("test", "S", "/home/ab", 0, 2, true);
    history.build_cache_table("/home/a", false, 10);
    let found: Vec<&str> = history.contextual_commands.iter().map(|r| r.cmd.as_str()).collect();
    assert_eq!(found, vec!["make"]);
    history.build_cache_table("/home/a_", false, 10);
    let found: Vec<&str> = history.contextual_commands.iter().map(|r| r.cmd.as_str()).collect();
    assert_eq!(found, vec!["test"]);
    history.build_cache_table("/home/%", false, 10);
    assert_eq!(history.contextual_commands.len(), 2);
}

#[test]
fn imported_rows_are_seen_only_from_anywhere() {
    let lines = vec!["echo hi".to_string()];
    let mut history = History::from_shell_history(&lines, 50);
    history.build_cache_table("/", false, 60);
    assert!(history.contextual_commands.is_empty());
    history.build_cache_table("/", true, 60);
    assert_eq!(history.contextual_commands.len(), 1);
    let f = &context(&history, "echo hi").features;
    assert_eq!(f.exit_factor, ratio(0, 1));
    assert_eq!(f.age_factor, ratio(0, 1));
    assert_eq!(f.recent_failure_factor, ratio(1, 1));
    assert_eq!(f.dir_factor, ratio(0, 1));
}

#[test]
fn failure_recency() {
    let mut history = History::new();
    let t = 5000;
    history.add("git push", "S", "/tmp", 1, t, true);
    history.build_cache_table("/tmp", false, t + 119);
    assert_eq!(context(&history, "git push").features.recent_failure_factor, ratio(1, 1));
    history.build_cache_table("/tmp", false, t + 120);
    assert_eq!(context(&history, "git push").features.recent_failure_factor, ratio(0, 1));
    history.build_cache_table("/tmp", false, t + 100_000);
    assert_eq!(context(&history, "git push").features.recent_failure_factor, ratio(0, 1));
}

#[test]
fn a_success_after_a_failure_clears_the_failure() {
    let mut history = History::new();
    history.add("git push", "S", "/tmp", 1, 100, true);
    history.add("git push", "S", "/tmp", 0, 110, true);
    history.build_cache_table("/tmp", false, 120);
    let f = &context(&history, "git push").features;
    assert_eq!(f.recent_failure_factor, ratio(0, 1));
    assert_eq!(f.exit_factor, ratio(2, 2));
}

#[test]
fn an_empty_store_has_an_empty_context() {
    let mut history = History::new();
    history.build_cache_table("/", true, 0);
    assert!(history.contextual_commands.is_empty());
    assert!(history.find_matches("a", 40, true).is_empty());
    assert!(history.find_matches("", 40, false).is_empty());
}

#[test]
fn every_factor_is_between_zero_and_one() {
    let mut history = recorded();
    history.record_selected_from_ui("cargo build", "S", "/r");
    history.add("cargo build", "S", "/r", 3, 1040, true);
    history.add("ls -l", "S", "/s", 0, 1050, true);
    for (dir, anywhere) in [("/r", true), ("/r", false), ("/s", false), ("/s", true)] {
        history.build_cache_table(dir, anywhere, 1060);
        assert!(!history.contextual_commands.is_empty());
        for row in history.contextual_commands.iter() {
            assert!(all_in_unit(&row.features));
        }
    }
}

struct ByLength;

impl Scorer for ByLength {
    fn score(&self, features: &Features) -> i64 {
        features.length_factor.num as i64
    }
}

#[test]
fn rank_rows_changes_nothing_but_the_ranks() {
    let mut history = recorded();
    history.build_cache_table("/r", true, 1100);
    let before: Vec<(String, i64, Ratio)> = history
        .contextual_commands
        .iter()
        .map(|r| (r.cmd.clone(), r.last_run, r.features.exit_factor))
        .collect();
    history.rank_rows(&ByLength);
    let after: Vec<(String, i64, Ratio)> = history
        .contextual_commands
        .iter()
        .map(|r| (r.cmd.clone(), r.last_run, r.features.exit_factor))
        .collect();
    assert_eq!(before, after);
    assert_eq!(context(&history, "make").rank, 4);
    assert_eq!(context(&history, "cargo build").rank, 11);
}
