use rhis::history::{ignored, CommandRow, History, SelectedCommand, StoreError};
use rhis::history_cleaner::clean;
use rhis::shell_history::{delete_lines, full_history};

fn row(history: &History, cmd: &str, dir: Option<&str>) -> Option<(u64, i64, i64, u64, u64)> {
    let found: Vec<&CommandRow> = history
        .commands
        .iter()
        .filter(|r| r.cmd == cmd && r.dir.as_deref() == dir)
        .collect();
    assert!(found.len() <= 1);
    found.first().map(|r| (r.cnt, r.when_run, r.when_failed, r.exit_code, r.selected))
}

fn pairs_are_unique(history: &History) -> bool {
    let rows = &history.commands;
    for i in 0..rows.len() {
        for j in (i + 1)..rows.len() {
            if rows[i].cmd == rows[j].cmd && rows[i].dir == rows[j].dir {
                return false;
            }
        }
    }
    true
}

#[test]
fn import_of_a_history_file() {
    let lines = full_history("ls\n#1700000000\necho hi\n\n");
    assert_eq!(lines, vec!["ls".to_string(), "echo hi".to_string()]);
    let history = History::from_shell_history(&lines, 1_700_000_500);
    assert_eq!(history.commands.len(), 1);
    let only = &history.commands[0];
    assert_eq!(only.cmd, "echo hi");
    assert_eq!(only.cnt, 1);
    assert_eq!(only.exit_code, 0);
    assert_eq!(only.selected, 0);
    assert_eq!(only.dir, None);
    assert_eq!(only.when_run, 1_700_000_500);
    assert_eq!(only.when_failed, 0);
    assert!(history.selected_commands.is_empty());
}

#[test]
fn import_counts_a_line_that_comes_twice() {
    let lines = vec!["make".to_string(), "ls".to_string(), "make".to_string()];
    let history = History::from_shell_history(&lines, 10);
    assert_eq!(history.commands.len(), 1);
    assert_eq!(row(&history, "make", None), Some((2, 10, 0, 0, 0)));
}

#[test]
fn add_twice_gives_one_row() {
    let mut history = History::new();
    history.add("echo x", "s", "/home/a", 0, 100, true);
    history.add("echo x", "s", "/home/a", 0, 200, true);
    assert_eq!(history.commands.len(), 1);
    assert_eq!(row(&history, "echo x", Some("/home/a")), Some((2, 200, 0, 1, 0)));
}

#[test]
fn add_in_another_directory_gives_another_row() {
    let mut history = History::new();
    history.add("echo x", "s", "/home/a", 0, 100, true);
    history.add("echo x", "s", "/home/b", 0, 200, true);
    assert_eq!(history.commands.len(), 2);
    assert_eq!(row(&history, "echo x", Some("/home/a")), Some((1, 100, 0, 1, 0)));
    assert_eq!(row(&history, "echo x", Some("/home/b")), Some((1, 200, 0, 1, 0)));
    assert!(pairs_are_unique(&history));
}

#[test]
fn add_of_a_failure_stores_its_time() {
    let mut history = History::new();
    history.add("git push", "s", "/tmp", 1, 500, true);
    assert_eq!(row(&history, "git push", Some("/tmp")), Some((1, 500, 500, 0, 0)));
    history.add("git push", "s", "/tmp", 0, 600, true);
    assert_eq!(row(&history, "git push", Some("/tmp")), Some((2, 600, 0, 1, 0)));
}

#[test]
fn add_moves_the_row_to_the_end() {
    let mut history = History::new();
    history.add("one", "s", "/", 0, 1, true);
    history.add("two", "s", "/", 0, 2, true);
    history.add("one", "s", "/", 0, 3, true);
    let order: Vec<&str> = history.commands.iter().map(|r| r.cmd.as_str()).collect();
    assert_eq!(order, vec!["two", "one"]);
}

#[test]
fn add_passes_over_what_is_never_recorded() {
    let mut history = History::new();
    for cmd in ["", " secret", "pwd", "ls", "cd", "cd ..", "clear", "history", "rhis search", "rhis"] {
        assert!(ignored(cmd));
        history.add(cmd, "s", "/", 0, 1, true);
    }
    assert!(history.commands.is_empty());
    for cmd in ["ls -l", "cd /tmp", "pwdx", "echo rhis", "history 5"] {
        assert!(!ignored(cmd));
    }
}

#[test]
fn add_passes_over_a_command_that_was_not_found() {
    let mut history = History::new();
    history.record_selected_from_ui("nosuch", "s", "/");
    history.add("nosuch", "s", "/", 127, 1, false);
    assert!(history.commands.is_empty());
    assert!(history.selected_commands.is_empty());
    history.record_selected_from_ui("nosuch", "s", "/");
    history.add("nosuch", "s", "/", 127, 2, true);
    assert_eq!(row(&history, "nosuch", Some("/")), Some((1, 2, 2, 0, 1)));
    history.add("other", "s", "/", 1, 3, false);
    assert_eq!(row(&history, "other", Some("/")), Some((1, 3, 3, 0, 0)));
}

#[test]
fn selection_credit() {
    let mut history = History::new();
    history.record_selected_from_ui("make", "S1", "/r");
    assert_eq!(history.selected_commands.len(), 1);
    history.add("make", "S1", "/r", 0, 100, true);
    assert_eq!(row(&history, "make", Some("/r")), Some((1, 100, 0, 1, 1)));
    assert!(history.selected_commands.is_empty());
}

#[test]
fn selection_credit_adds_to_what_was_there() {
    let mut history = History::new();
    history.add("make", "one", "/r", 0, 100, true);
    history.record_selected_from_ui("make", "one", "/r");
    history.add("make", "one", "/r", 0, 200, true);
    history.record_selected_from_ui("make", "one", "/r");
    history.add("make", "one", "/r", 0, 300, true);
    assert_eq!(row(&history, "make", Some("/r")), Some((3, 300, 0, 1, 2)));
}

#[test]
fn no_credit_for_another_command_session_or_directory() {
    let mut history = History::new();
    history.record_selected_from_ui("make", "one", "/r");
    history.add("make", "two", "/r", 0, 100, true);
    assert_eq!(row(&history, "make", Some("/r")), Some((1, 100, 0, 1, 0)));
    assert_eq!(history.selected_commands.len(), 1);
    history.add("make", "one", "/other", 0, 200, true);
    assert_eq!(row(&history, "make", Some("/other")), Some((1, 200, 0, 1, 0)));
    assert!(history.selected_commands.is_empty());
}

#[test]
fn add_drops_the_selections_of_the_session_whatever_it_records() {
    for (cmd, exit_code, runnable) in
        [("make", 0, true), ("ls", 0, true), ("", 1, true), ("nosuch", 127, false), ("x", 127, true)]
    {
        let mut history = History::new();
        history.record_selected_from_ui(cmd, "mine", "/");
        history.record_selected_from_ui("other", "mine", "/elsewhere");
        history.record_selected_from_ui(cmd, "theirs", "/");
        history.add(cmd, "mine", "/", exit_code, 5, runnable);
        assert_eq!(history.selected_commands.len(), 1);
        assert_eq!(history.selected_commands[0].session_id, "theirs");
    }
}

#[test]
fn add_drops_every_selection_of_the_session() {
    let mut history = History::new();
    history.record_selected_from_ui("a", "one", "/");
    history.record_selected_from_ui("b", "two", "/");
    history.record_selected_from_ui("c", "one", "/x");
    history.add("ls", "one", "/", 0, 1, true);
    let left: Vec<&SelectedCommand> = history.selected_commands.iter().collect();
    assert_eq!(left.len(), 1);
    assert_eq!(left[0].cmd, "b");
    assert_eq!(left[0].session_id, "two");
    assert!(history.commands.is_empty());
}

#[test]
fn delete_removes_the_command_everywhere() {
    let mut history = History::new();
    history.add("echo x", "s", "/home/a", 0, 100, true);
    history.add("echo x", "s", "/home/a", 0, 200, true);
    history.add("echo x", "s", "/home/b", 0, 300, true);
    history.add("echo y", "s", "/home/a", 0, 400, true);
    history.build_cache_table("/home/a", true, 500);
    assert_eq!(history.contextual_commands.len(), 2);
    history.delete_command("echo x");
    assert_eq!(history.commands.len(), 1);
    assert_eq!(history.commands[0].cmd, "echo y");
    assert_eq!(history.contextual_commands.len(), 1);
    assert_eq!(history.contextual_commands[0].cmd, "echo y");
}

#[test]
fn delete_after_two_adds_leaves_nothing() {
    let mut history = History::new();
    history.add("echo x", "s", "/home/a", 0, 100, true);
    history.add("echo x", "s", "/home/a", 0, 200, true);
    history.build_cache_table("/home/a", false, 300);
    assert_eq!(history.contextual_commands.len(), 1);
    history.delete_command("echo x");
    assert!(history.commands.is_empty());
    assert!(history.contextual_commands.is_empty());
    let file = delete_lines("ls\necho x\n#1700000000\necho y\n", "echo x");
    assert_eq!(file, Some("ls\necho y\n".to_string()));
}

#[test]
fn update_paths_renames_a_directory_and_what_is_under_it() {
    let mut history = History::new();
    history.add("a", "s", "/old", 0, 1, true);
    history.add("b", "s", "/old/sub", 0, 2, true);
    history.add("c", "s", "/older", 0, 3, true);
    history.add("d", "s", "/x/old", 0, 4, true);
    assert_eq!(history.update_paths("/old", "/new"), Ok(()));
    let dirs: Vec<Option<&str>> = history.commands.iter().map(|r| r.dir.as_deref()).collect();
    assert_eq!(dirs, vec![Some("/new"), Some("/new/sub"), Some("/older"), Some("/x/old")]);
    assert_eq!(row(&history, "a", Some("/new")), Some((1, 1, 0, 1, 0)));
}

#[test]
fn update_paths_refuses_a_renaming_that_makes_two_rows_alike() {
    let mut history = History::new();
    history.add("make", "s", "/old", 0, 1, true);
    history.add("make", "s", "/new", 0, 2, true);
    let refused = history.update_paths("/old", "/new");
    assert!(matches!(refused, Err(StoreError::Conflict)));
    assert_eq!(row(&history, "make", Some("/old")), Some((1, 1, 0, 1, 0)));
    assert_eq!(row(&history, "make", Some("/new")), Some((1, 2, 0, 1, 0)));
}

#[test]
fn a_store_has_room_until_it_has_counted_all_it_can() {
    let most = 0x7fff_ffff_ffff_ffff_u64;
    assert!(History::new().room());
    let nearly = History::load(vec![one("a", "/", most - 1, 0, 1, 1)], vec![]);
    assert_eq!(nearly.map(|h| h.room()), Some(true));
    let full = History::load(vec![one("a", "/", most - 1, 0, 1, 1), one("b", "/", 1, 0, 1, 1)], vec![]);
    assert_eq!(full.map(|h| h.room()), Some(false));
}

#[test]
fn load_takes_rows_that_are_in_order() {
    let rows = vec![
        CommandRow {
            cmd: "a".into(),
            cnt: 2,
            when_run: 5,
            when_failed: 0,
            exit_code: 1,
            selected: 1,
            dir: Some("/".into()),
        },
        CommandRow {
            cmd: "a".into(),
            cnt: 1,
            when_run: 6,
            when_failed: 6,
            exit_code: 0,
            selected: 0,
            dir: None,
        },
    ];
    let history = History::load(rows, Vec::new());
    assert!(history.is_some());
    assert_eq!(history.map(|h| h.commands.len()), Some(2));
}

fn one(cmd: &str, dir: &str, cnt: u64, selected: u64, exit_code: u64, when_run: i64) -> CommandRow {
    CommandRow {
        cmd: cmd.into(),
        cnt,
        when_run,
        when_failed: 0,
        exit_code,
        selected,
        dir: Some(dir.into()),
    }
}

#[test]
fn load_refuses_rows_that_are_not_in_order() {
    assert!(History::load(vec![one("a", "/", 1, 0, 1, 1), one("a", "/", 1, 0, 1, 2)], vec![]).is_none());
    assert!(History::load(vec![one("a", "/", 0, 0, 1, 1)], vec![]).is_none());
    assert!(History::load(vec![one("a", "/", 1, 2, 1, 1)], vec![]).is_none());
    assert!(History::load(vec![one("a", "/", 1, 0, 2, 1)], vec![]).is_none());
    assert!(History::load(vec![one("a", "/", 1, 0, 1, -1)], vec![]).is_none());
    let most = 0x7fff_ffff_ffff_ffff_u64;
    assert!(History::load(vec![one("a", "/", most, 0, 1, 1)], vec![]).is_some());
    assert!(History::load(vec![one("a", "/", most, 0, 1, 1), one("b", "/", 1, 0, 1, 1)], vec![]).is_none());
    assert!(History::load(vec![one("a", "/", most + 1, 0, 1, 1)], vec![]).is_none());
}

#[test]
fn every_state_of_the_store_has_unique_pairs() {
    let mut history = History::new();
    let cmds = ["make", "git push", "make", "cargo test", "git push", "make"];
    let dirs = ["/a", "/b", "/a", "/a", "/a", "/b"];
    for (i, (cmd, dir)) in cmds.iter().zip(dirs.iter()).enumerate() {
        history.add(cmd, "s", dir, (i % 2) as i32, i as i64, true);
        assert!(pairs_are_unique(&history));
        assert!(history.selected_commands.iter().all(|r| r.session_id != "s"));
    }
    assert_eq!(history.commands.len(), 5);
    let _ = history.update_paths("/a", "/c");
    assert!(pairs_are_unique(&history));
    history.delete_command("make");
    assert!(pairs_are_unique(&history));
    assert_eq!(history.commands.len(), 3);
}

#[test]
fn clean_forgets_in_the_store_and_in_the_file() {
    let mut history = History::new();
    history.add("echo x", "s", "/a", 0, 1, true);
    history.add("echo y", "s", "/a", 0, 2, true);
    let file = clean(&mut history, "echo x\necho y\necho x\n", "echo x");
    assert_eq!(file, Some("echo y\n".to_string()));
    assert_eq!(history.commands.len(), 1);
    assert_eq!(history.commands[0].cmd, "echo y");
    assert_eq!(clean(&mut history, "", "echo y"), None);
    assert!(history.commands.is_empty());
}
