use rhis::cli::{Cli, SubCommand};
use rhis::elapsed::{abbreviate, explain};
use rhis::path_update_helpers::{
    is_move, is_move_given, move_operands, move_target, parse_mv_command, Inside, MoveProbe,
};
use rhis::pathutil::{logical_path, normalize_path, text_to_normalize};
use rhis::settings::{init_script, join_command, Mode, Settings};
use rhis::shell::{Bash, Mode as Reading};
use rhis::shell_history::{delete_lines, full_history, has_leading_timestamp};

fn arg0(line: &str) -> Option<String> {
    Bash::new().arg0_from_cmdline(line)
}

#[test]
fn the_first_word_of_a_command_line() {
    assert_eq!(arg0("ls -la"), Some("ls".to_string()));
    assert_eq!(arg0("ls\t-la"), Some("ls".to_string()));
    assert_eq!(arg0("ls"), Some("ls".to_string()));
    assert_eq!(arg0(""), Some("".to_string()));
    assert_eq!(arg0(" ls"), Some("".to_string()));
    assert_eq!(arg0("'my prog' x"), Some("my prog".to_string()));
    assert_eq!(arg0("\"my prog\" x"), Some("my prog".to_string()));
    assert_eq!(arg0("my\\ prog x"), Some("my prog".to_string()));
    assert_eq!(arg0("a\\nb c"), Some("a\nb".to_string()));
    assert_eq!(arg0("a\\tb c"), Some("a\tb".to_string()));
    assert_eq!(arg0("a\\rb c"), Some("a\rb".to_string()));
    assert_eq!(arg0("a\\xb c"), Some("axb".to_string()));
    assert_eq!(arg0("'a\\nb' c"), Some("a\\nb".to_string()));
    assert_eq!(arg0("\"it's\" x"), Some("it's".to_string()));
    assert_eq!(arg0("ab'c d'e f"), Some("abc de".to_string()));
    assert_eq!(arg0("één twee"), Some("één".to_string()));
    assert_eq!(arg0("'open"), Some("open".to_string()));
}

#[test]
fn the_reader_byte_by_byte() {
    let mut shell = Bash::new();
    assert_eq!(shell.fns, vec![Reading::Bare]);
    shell.bare(b'a');
    assert_eq!(shell.cmd_array(), &vec![b'a']);
    shell.bare(b'"');
    assert_eq!(shell.fns, vec![Reading::Bare, Reading::Quote(b'"')]);
    shell.quote::<b'"'>(b' ');
    shell.quote::<b'"'>(b'\\');
    assert_eq!(shell.fns, vec![Reading::Bare, Reading::Quote(b'"'), Reading::Escape]);
    shell.escape(b'n');
    assert_eq!(shell.cmd, b"a \\n".to_vec());
    shell.quote::<b'"'>(b'"');
    assert_eq!(shell.fns, vec![Reading::Bare]);
    shell.feed(b'\\');
    shell.feed(b'n');
    assert_eq!(shell.cmd, b"a \\n\n".to_vec());
    shell.feed(b' ');
    assert!(shell.fns.is_empty());
    shell.feed(b'x');
    assert_eq!(shell.cmd, b"a \\n\n".to_vec());
}

#[test]
fn a_word_that_is_cut_inside_a_character_is_no_text() {
    let mut shell = Bash::new();
    shell.scan(&[b'a', 0xc3]);
    assert_eq!(shell.cmd, vec![b'a', 0xc3]);
    assert_eq!(shell.arg0_from_cmdline(""), None);
}

#[test]
fn time_marks_of_zsh() {
    assert!(has_leading_timestamp("#1700000000"));
    assert!(has_leading_timestamp("#1700000000 and more"));
    assert!(has_leading_timestamp("#1700000000x"));
    assert!(!has_leading_timestamp("#17000000001"));
    assert!(!has_leading_timestamp("#170000000"));
    assert!(!has_leading_timestamp("#170000000x"));
    assert!(!has_leading_timestamp("1700000000#"));
    assert!(!has_leading_timestamp("# 1700000000"));
    assert!(!has_leading_timestamp("#"));
    assert!(!has_leading_timestamp(""));
    assert!(!has_leading_timestamp("echo #1700000000"));
    assert!(!has_leading_timestamp("#١٧٠٠٠٠٠٠٠٠"));
}

#[test]
fn the_commands_of_a_history_file() {
    assert_eq!(full_history(""), Vec::<String>::new());
    assert_eq!(full_history("\n\n"), Vec::<String>::new());
    assert_eq!(full_history("a"), vec!["a"]);
    assert_eq!(full_history("  a b  \n\tc\n"), vec!["a b", "c"]);
    assert_eq!(full_history("#1700000000\nmake\n#1700000001\nmake test"), vec!["make", "make test"]);
    assert_eq!(full_history("   \nx"), vec!["", "x"]);
}

#[test]
fn a_history_file_without_a_command() {
    assert_eq!(delete_lines("a\nb\na\n", "a"), Some("b\n".to_string()));
    assert_eq!(delete_lines("a\nb", "c"), Some("a\nb\n".to_string()));
    assert_eq!(delete_lines("a\n", "a"), Some("".to_string()));
    assert_eq!(delete_lines("", "a"), None);
    assert_eq!(delete_lines("#1700000000\n\n", "a"), None);
    assert_eq!(delete_lines(" a \nb\n", "a"), Some("b\n".to_string()));
}

#[test]
fn the_operands_of_a_move() {
    assert_eq!(parse_mv_command("mv a b"), vec!["a", "b"]);
    assert_eq!(parse_mv_command("mv -v a b"), vec!["a", "b"]);
    assert_eq!(parse_mv_command("mv  a   b "), vec!["a", "b"]);
    assert_eq!(parse_mv_command("mv 'a b' c"), vec!["a b", "c"]);
    assert_eq!(parse_mv_command("mv \"a b\" \"c d\""), vec!["a b", "c d"]);
    assert_eq!(parse_mv_command("mv a\\ b c"), vec!["a b", "c"]);
    assert_eq!(parse_mv_command("mv \"a'b\" 'c\"d'"), vec!["a'b", "c\"d"]);
    assert_eq!(parse_mv_command("mv a\\\"b c"), vec!["a\"b", "c"]);
    assert_eq!(parse_mv_command("mv"), Vec::<String>::new());
    assert_eq!(parse_mv_command(""), Vec::<String>::new());
    assert_eq!(parse_mv_command("mv -f"), Vec::<String>::new());
    assert_eq!(parse_mv_command("mv e\u{301}t\u{e9} x"), vec!["e\u{301}t\u{e9}", "x"]);
}

#[test]
fn which_command_lines_move_something() {
    assert!(is_move("mv a b"));
    assert!(is_move("MV a b"));
    assert!(is_move("Mv a b"));
    assert!(!is_move("mv"));
    assert!(!is_move("mva b"));
    assert!(!is_move("mv *.txt dir"));
    assert!(!is_move("mv a? b"));
    assert!(!is_move(" mv a b"));
    assert!(!is_move("cp a b"));
    assert!(is_move_given("mv x y", "anything"));
    assert!(!is_move_given("MV x y", "mv x y"));
    assert!(!is_move_given("mv x y", "mv x *"));
    assert_eq!(move_operands("mv a b"), Some(("a".to_string(), "b".to_string())));
    assert_eq!(move_operands("MV -n 'a b' c"), Some(("a b".to_string(), "c".to_string())));
    assert_eq!(move_operands("mv a b c"), None);
    assert_eq!(move_operands("mv a"), None);
    assert_eq!(move_operands("cp a b"), None);
    assert_eq!(move_operands("mv a* b"), None);
}

fn probe(from_is_dir: bool, inside: Inside, to_is_dir: bool) -> MoveProbe {
    MoveProbe { from: "/a/x".into(), to: "/b".into(), from_is_dir, inside, to_is_dir }
}

#[test]
fn where_a_directory_went() {
    let named = |is_dir| Inside::Named { path: "/b/x".into(), is_dir };
    assert_eq!(move_target(&probe(true, named(true), true)), Some("/b/x".to_string()));
    assert_eq!(move_target(&probe(true, named(true), false)), Some("/b/x".to_string()));
    assert_eq!(move_target(&probe(true, named(false), true)), Some("/b".to_string()));
    assert_eq!(move_target(&probe(true, named(false), false)), None);
    assert_eq!(move_target(&probe(true, Inside::Nameless, true)), Some("/b".to_string()));
    assert_eq!(move_target(&probe(true, Inside::Nameless, false)), None);
    assert_eq!(move_target(&probe(true, Inside::Unreadable, true)), None);
    assert_eq!(move_target(&probe(false, named(true), true)), None);
}

#[test]
fn the_store_follows_a_directory_that_was_moved() {
    let mut history = rhis::history::History::new();
    history.add("make", "s", "/a/x", 0, 1, true);
    history.add("test", "s", "/a/x/y", 0, 2, true);
    let named = Inside::Named { path: "/b/x".into(), is_dir: true };
    assert_eq!(history.possibly_update_paths(&probe(true, named, true)), Ok(true));
    let dirs: Vec<Option<&str>> = history.commands.iter().map(|r| r.dir.as_deref()).collect();
    assert_eq!(dirs, vec![Some("/b/x"), Some("/b/x/y")]);
    assert_eq!(history.possibly_update_paths(&probe(false, Inside::Nameless, true)), Ok(false));
}

#[test]
fn settings_of_a_command_line() {
    let words = |w: &[&str]| -> Vec<String> { w.iter().map(|s| s.to_string()).collect() };
    let add = Settings::parse_args(Cli {
        command: SubCommand::Add {
            command: words(&[" git", "commit", "-m", "x y "]),
            exit: 3,
            directory: Some("/r".into()),
        },
        sid: Some("S9".into()),
    });
    assert_eq!(add.mode, Mode::Add);
    assert_eq!(add.command, "git commit -m x y");
    assert_eq!(add.exit_code, 3);
    assert_eq!(add.dir, "/r");
    assert_eq!(add.sid, "S9");
    assert_eq!(add.results, 40);
    assert!(!add.bottom && !add.lightmode);
    let search = Settings::parse_args(Cli {
        command: SubCommand::Search {
            command: vec![],
            directory: Some("/s".into()),
            bottom: true,
            light: false,
        },
        sid: None,
    });
    assert_eq!(search.mode, Mode::Search);
    assert_eq!(search.command, "");
    assert_eq!(search.dir, "/s");
    assert_eq!(search.sid, "");
    assert!(search.bottom && !search.lightmode);
    let cli = Cli { command: SubCommand::Init { bottom: false, light: true }, sid: None };
    assert!(cli.is_init());
    let init = Settings::parse_args(cli);
    assert_eq!(init.mode, Mode::Init);
    assert!(!init.bottom && init.lightmode);
    let defaults = Settings::default();
    assert_eq!(defaults.mode, Mode::Add);
    assert_eq!(defaults.results, 40);
    assert_eq!(join_command(&words(&["a", "", "b"])), "a  b");
    let not_init = Cli {
        command: SubCommand::Add { command: vec![], exit: 0, directory: Some("/".into()) },
        sid: None,
    };
    assert!(!not_init.is_init());
}

#[test]
fn the_shell_script_without_the_flags_that_are_off() {
    let script = "rhis search --bottom --light \"$x\"\n";
    assert_eq!(init_script(script, true, true), script);
    assert_eq!(init_script(script, false, true), "rhis search --light \"$x\"\n");
    assert_eq!(init_script(script, true, false), "rhis search --bottom \"$x\"\n");
    assert_eq!(init_script(script, false, false), "rhis search \"$x\"\n");
    assert_eq!(init_script("no flags", false, false), "no flags");
    assert_eq!(init_script("end --light", true, false), "end ");
}

#[test]
fn how_long_ago() {
    assert_eq!(explain(0, 5 * 3600 + 7 * 60 + 30), "5h 7m");
    assert_eq!(explain(100, 100), "< 1m");
    assert_eq!(explain(100, 159), "< 1m");
    assert_eq!(explain(100, 160), "1m");
    assert_eq!(explain(0, 86400), "1d");
    assert_eq!(explain(0, 3 * 86400 + 3600 + 60), "3d 1h");
    assert_eq!(explain(0, 31_557_600 + 2 * 2_630_016 + 86400), "1y 2mo");
    assert_eq!(explain(0, 2 * 31_557_600), "2y");
    assert_eq!(abbreviate("2years 1month 3days"), "2y 1mo");
    assert_eq!(abbreviate("1day 20h 3m"), "1d 20h");
    assert_eq!(abbreviate("0s"), "< 1m");
    assert_eq!(abbreviate("10s"), "1< 1m");
    assert_eq!(abbreviate(""), "");
}

#[test]
fn which_text_is_normalised() {
    let seen = || Some("/cwd/x".to_string());
    assert_eq!(text_to_normalize("/a/b", true, seen()), Some("/a/b".to_string()));
    assert_eq!(text_to_normalize("a/b", true, seen()), Some("/cwd/x".to_string()));
    assert_eq!(text_to_normalize("", true, seen()), Some("/cwd/x".to_string()));
    assert_eq!(text_to_normalize("a/b", true, None), None);
    assert_eq!(text_to_normalize("/a/b", true, None), Some("/a/b".to_string()));
    assert_eq!(text_to_normalize("/a/b", false, seen()), None);
    assert_eq!(text_to_normalize("a/b", false, seen()), None);
}

#[test]
fn the_logical_path_of_a_path() {
    if !std::path::Path::new("/").is_absolute() {
        return;
    }
    let sep = std::path::MAIN_SEPARATOR;
    assert_eq!(logical_path("/a/./b/../c", "/cwd"), Some(format!("a{sep}c")));
    assert_eq!(logical_path("x/../y", "/home/me"), Some(format!("home{sep}me{sep}y")));
    assert_eq!(logical_path("y", "relative"), None);
    assert_eq!(logical_path("~user/x", "/"), Some(format!("~user{sep}x")));
    let home = logical_path("~/x", "/");
    assert!(home.is_some());
    assert_ne!(home, Some(format!("~{sep}x")));
    // A logical path has no root in front: none is absolute.
    assert_eq!(normalize_path("/a/b", "/cwd"), None);
    assert_eq!(normalize_path("b", "/cwd"), None);
    assert_eq!(normalize_path("b", "cwd"), None);
}
