use rhis::history::{Command, Features, History};
use rhis::interface::{
    candidate_theme, command_line_index, cut_to_width, format_command_text, highlight_spans,
    input_width,
    line_range, trans_position, Color, Event, Interface, Key, KeyPress, MenuMode, MoveSelection,
    Outcome, Redraw, RowPlace, Span,
};
use rhis::ranker::Scorer;
use rhis::settings::Settings;

struct ByCount;

impl Scorer for ByCount {
    fn score(&self, features: &Features) -> i64 {
        features.occurrences_factor.num as i64
    }
}

fn store() -> History {
    let mut history = History::new();
    history.add("git status", "S", "/r", 0, 10, true);
    history.add("git push", "S", "/r", 0, 20, true);
    history.add("git push", "S", "/r", 0, 30, true);
    history.add("git pull", "S", "/q", 0, 40, true);
    history.add("make", "S", "/r", 0, 50, true);
    history
}

fn settings(command: &str, bottom: bool) -> Settings {
    let mut settings = Settings::default();
    settings.command = command.to_string();
    settings.dir = "/r".to_string();
    settings.sid = "S".to_string();
    settings.bottom = bottom;
    settings
}

fn screen(command: &str) -> Interface {
    let mut ui = Interface::new(settings(command, false), store(), 80, 24);
    ui.start(100, &ByCount);
    ui
}

fn press(ui: &mut Interface, code: Key) -> Outcome {
    ui.handle(Event::Key(KeyPress { code, control: false }), 100, &ByCount)
}

fn shown(ui: &Interface) -> Vec<&str> {
    ui.matches.iter().map(|c| c.cmd.as_str()).collect()
}

#[test]
fn a_new_screen() {
    let ui = Interface::new(settings("git", false), store(), 80, 24);
    assert_eq!(ui.input.command, "git");
    assert_eq!(ui.input.cursor, 3);
    assert_eq!(ui.input.cap, 156);
    assert_eq!((ui.selection, ui.offset), (0, 0));
    assert!(ui.matches.is_empty());
    assert_eq!(ui.menu_mode, MenuMode::Normal);
    assert!(ui.rank && ui.anywhere);
    assert_eq!((ui.width, ui.height), (80, 24));
    assert_eq!(ui.accepted, "");
}

#[test]
fn the_room_of_the_prompt() {
    assert_eq!(input_width(80), 156);
    assert_eq!(input_width(14), 24);
    assert_eq!(input_width(2), 0);
    assert_eq!(input_width(1), 0);
    assert_eq!(input_width(0), 0);
    assert_eq!(input_width(32769), 65534);
    assert_eq!(input_width(40000), 65535);
}

#[test]
fn start_searches_for_the_text_of_the_prompt() {
    let ui = screen("git");
    assert_eq!(shown(&ui), vec!["git push", "git pull", "git status"]);
    assert_eq!((ui.selection, ui.offset), (0, 0));
    let empty = screen("");
    assert!(empty.matches.is_empty());
}

#[test]
fn typing_searches_anew() {
    let mut ui = screen("");
    let out = press(&mut ui, Key::Char('m'));
    assert!(!out.exit);
    assert_eq!(out.redraw, Redraw::Full);
    assert!(out.forget.is_none());
    assert_eq!(ui.input.command, "m");
    assert_eq!(shown(&ui), vec!["make"]);
    press(&mut ui, Key::Char('x'));
    assert!(ui.matches.is_empty());
    let out = press(&mut ui, Key::Backspace);
    assert_eq!(out.redraw, Redraw::Full);
    assert_eq!(shown(&ui), vec!["make"]);
    press(&mut ui, Key::Home);
    let out = press(&mut ui, Key::Delete);
    assert_eq!(out.redraw, Redraw::Full);
    assert_eq!(ui.input.command, "");
    assert!(ui.matches.is_empty());
}

#[test]
fn typing_goes_back_to_the_first_match() {
    let mut ui = screen("git");
    press(&mut ui, Key::Down);
    assert_eq!(ui.selection, 1);
    press(&mut ui, Key::Char(' '));
    assert_eq!(ui.input.command, "git ");
    assert_eq!((ui.selection, ui.offset), (0, 0));
    assert_eq!(shown(&ui), vec!["git push", "git pull", "git status"]);
}

#[test]
fn the_cursor_keys_move_the_cursor() {
    let mut ui = screen("git");
    let out = press(&mut ui, Key::Left);
    assert_eq!(out.redraw, Redraw::Prompt);
    assert_eq!(ui.input.cursor, 2);
    press(&mut ui, Key::Home);
    assert_eq!(ui.input.cursor, 0);
    let out = press(&mut ui, Key::Left);
    assert_eq!(out.redraw, Redraw::Prompt);
    assert_eq!(ui.input.cursor, 0);
    press(&mut ui, Key::Right);
    assert_eq!(ui.input.cursor, 1);
    press(&mut ui, Key::End);
    assert_eq!(ui.input.cursor, 3);
    assert_eq!(shown(&ui), vec!["git push", "git pull", "git status"]);
}

#[test]
fn the_arrow_keys_move_the_selection() {
    let mut ui = screen("git");
    let out = press(&mut ui, Key::Up);
    assert_eq!(out.redraw, Redraw::Prompt);
    assert_eq!(ui.selection, 0);
    let out = press(&mut ui, Key::Down);
    assert_eq!(out.redraw, Redraw::Rows(0));
    assert_eq!(ui.selection, 1);
    press(&mut ui, Key::Down);
    assert_eq!(ui.selection, 2);
    press(&mut ui, Key::Down);
    assert_eq!(ui.selection, 2);
    let out = press(&mut ui, Key::Up);
    assert_eq!(out.redraw, Redraw::Rows(2));
    assert_eq!(ui.selection, 1);
}

#[test]
fn the_arrow_keys_go_the_other_way_on_a_screen_from_the_bottom() {
    let mut ui = Interface::new(settings("git", true), store(), 80, 24);
    ui.start(100, &ByCount);
    press(&mut ui, Key::Up);
    assert_eq!(ui.selection, 1);
    press(&mut ui, Key::Down);
    assert_eq!(ui.selection, 0);
    ui.move_selection(MoveSelection::Up);
    ui.move_selection(MoveSelection::Up);
    ui.move_selection(MoveSelection::Up);
    assert_eq!(ui.selection, 2);
}

#[test]
fn the_selection_of_an_empty_list_stays() {
    let mut ui = screen("zzz");
    press(&mut ui, Key::Down);
    press(&mut ui, Key::Up);
    assert_eq!((ui.selection, ui.offset), (0, 0));
}

#[test]
fn enter_accepts_the_selection_to_be_run() {
    let mut ui = screen("git");
    press(&mut ui, Key::Down);
    let out = press(&mut ui, Key::Enter);
    assert!(out.exit);
    assert_eq!(ui.accepted, "git pull\n");
    assert_eq!(ui.finish(), Some("git pull\n".to_string()));
    let noted = &ui.history.selected_commands;
    assert_eq!(noted.len(), 1);
    assert_eq!(noted[0].cmd, "git pull");
    assert_eq!(noted[0].session_id, "S");
    assert_eq!(noted[0].dir, "/r");
}

#[test]
fn tab_accepts_the_selection_to_be_edited() {
    let mut ui = screen("git");
    let out = press(&mut ui, Key::Tab);
    assert!(out.exit);
    assert_eq!(ui.accepted, "git push\t");
    assert_eq!(ui.finish(), Some("git push\t".to_string()));
}

#[test]
fn without_a_match_the_text_of_the_prompt_is_accepted() {
    let mut ui = screen("zzz");
    let out = press(&mut ui, Key::Enter);
    assert!(out.exit);
    assert_eq!(ui.finish(), Some("zzz\n".to_string()));
}

#[test]
fn a_long_command_is_accepted_whole() {
    let long = "x".repeat(300);
    let mut history = History::new();
    history.add(&long, "S", "/r", 0, 1, true);
    let mut ui = Interface::new(settings("x", false), history, 20, 24);
    ui.start(100, &ByCount);
    assert_eq!(ui.input.cap, 36);
    press(&mut ui, Key::Enter);
    assert_eq!(ui.finish(), Some(format!("{}\n", long)));
}

#[test]
fn nothing_is_accepted_from_an_empty_screen() {
    let mut ui = screen("");
    let out = press(&mut ui, Key::Enter);
    assert!(out.exit);
    assert_eq!(ui.accepted, "");
    assert_eq!(ui.finish(), None);
    assert!(ui.history.selected_commands.is_empty());
}

#[test]
fn white_space_alone_is_not_accepted() {
    let mut ui = Interface::new(settings("", false), History::new(), 80, 24);
    ui.start(100, &ByCount);
    press(&mut ui, Key::Char(' '));
    press(&mut ui, Key::Tab);
    assert_eq!(ui.accepted, " \t");
    assert_eq!(ui.finish(), None);
}

#[test]
fn the_break_key_accepts_nothing() {
    let mut ui = screen("git");
    let out = ui.handle(
        Event::Key(KeyPress { code: Key::Char('c'), control: true }),
        100,
        &ByCount,
    );
    assert!(out.exit);
    assert!(out.forget.is_none());
    assert_eq!(ui.input.command, "");
    assert_eq!(ui.finish(), None);
}

#[test]
fn the_control_key_with_another_letter_types_it() {
    let mut ui = screen("");
    let out = ui.handle(
        Event::Key(KeyPress { code: Key::Char('m'), control: true }),
        100,
        &ByCount,
    );
    assert!(!out.exit);
    assert_eq!(ui.input.command, "m");
}

#[test]
fn the_first_function_key_changes_the_order() {
    let mut ui = screen("git");
    press(&mut ui, Key::Down);
    let out = press(&mut ui, Key::F(1));
    assert_eq!(out.redraw, Redraw::Full);
    assert!(!ui.rank);
    assert_eq!(shown(&ui), vec!["git pull", "git push", "git status"]);
    assert_eq!(ui.selection, 0);
    press(&mut ui, Key::F(1));
    assert!(ui.rank);
    assert_eq!(shown(&ui), vec!["git push", "git pull", "git status"]);
}

#[test]
fn the_third_function_key_changes_the_directories() {
    let mut ui = screen("git");
    let out = press(&mut ui, Key::F(3));
    assert_eq!(out.redraw, Redraw::Full);
    assert!(!ui.anywhere);
    assert_eq!(shown(&ui), vec!["git push", "git status"]);
    press(&mut ui, Key::F(3));
    assert!(ui.anywhere);
    assert_eq!(shown(&ui), vec!["git push", "git pull", "git status"]);
}

#[test]
fn other_keys_change_nothing() {
    let mut ui = screen("git");
    for key in [Key::F(4), Key::F(12), Key::Other] {
        let out = press(&mut ui, key);
        assert!(!out.exit);
        assert_eq!(out.redraw, Redraw::Prompt);
    }
    let out = ui.handle(Event::Other, 100, &ByCount);
    assert!(!out.exit);
    assert_eq!(out.redraw, Redraw::Prompt);
    assert_eq!(ui.input.command, "git");
    assert_eq!(shown(&ui), vec!["git push", "git pull", "git status"]);
}

#[test]
fn deleting_asks_first() {
    let mut ui = screen("git");
    press(&mut ui, Key::Down);
    let out = press(&mut ui, Key::F(2));
    assert_eq!(out.redraw, Redraw::Full);
    assert_eq!(ui.menu_mode, MenuMode::ConfirmDelete);
    // Every key but an answer is ignored.
    for key in [Key::Char('x'), Key::Enter, Key::Down, Key::F(1), Key::Backspace] {
        let out = press(&mut ui, key);
        assert!(!out.exit);
        assert_eq!(out.redraw, Redraw::Prompt);
        assert_eq!(ui.menu_mode, MenuMode::ConfirmDelete);
        assert_eq!(ui.input.command, "git");
        assert_eq!(ui.selection, 1);
    }
    let out = press(&mut ui, Key::Char('n'));
    assert_eq!(out.redraw, Redraw::Full);
    assert!(out.forget.is_none());
    assert_eq!(ui.menu_mode, MenuMode::Normal);
    assert_eq!(shown(&ui), vec!["git push", "git pull", "git status"]);
    press(&mut ui, Key::F(2));
    let out = press(&mut ui, Key::Char('Y'));
    assert_eq!(out.forget, Some("git pull".to_string()));
    assert_eq!(out.redraw, Redraw::Full);
    assert_eq!(ui.menu_mode, MenuMode::Normal);
    assert_eq!(shown(&ui), vec!["git push", "git status"]);
    assert_eq!(ui.selection, 1);
    assert!(ui.history.commands.iter().all(|r| r.cmd != "git pull"));
    assert!(ui.history.contextual_commands.iter().all(|r| r.cmd != "git pull"));
}

#[test]
fn deleting_the_last_match_selects_the_one_before_it() {
    let mut ui = screen("git");
    press(&mut ui, Key::Down);
    press(&mut ui, Key::Down);
    press(&mut ui, Key::F(2));
    let out = press(&mut ui, Key::Char('y'));
    assert_eq!(out.forget, Some("git status".to_string()));
    assert_eq!(shown(&ui), vec!["git push", "git pull"]);
    assert_eq!(ui.selection, 1);
    let out = press(&mut ui, Key::Enter);
    assert!(out.exit);
    assert_eq!(ui.accepted, "git pull\n");
}

#[test]
fn there_is_nothing_to_delete_without_a_match() {
    let mut ui = screen("zzz");
    let out = press(&mut ui, Key::F(2));
    assert_eq!(out.redraw, Redraw::Prompt);
    assert_eq!(ui.menu_mode, MenuMode::Normal);
    assert_eq!(ui.confirm(true), None);
    assert_eq!(ui.delete_selection(), None);
}

#[test]
fn the_break_key_is_ignored_while_the_screen_asks() {
    let mut ui = screen("git");
    press(&mut ui, Key::F(2));
    let out = ui.handle(
        Event::Key(KeyPress { code: Key::Char('c'), control: true }),
        100,
        &ByCount,
    );
    assert!(!out.exit);
    assert_eq!(ui.menu_mode, MenuMode::ConfirmDelete);
    assert_eq!(ui.input.command, "git");
    press(&mut ui, Key::Char('N'));
    let out = ui.handle(
        Event::Key(KeyPress { code: Key::Char('c'), control: true }),
        100,
        &ByCount,
    );
    assert!(out.exit);
}

fn many() -> Interface {
    let mut history = History::new();
    for i in 0..30 {
        history.add(&format!("echo {:02}", i), "S", "/r", 0, i, true);
    }
    let mut ui = Interface::new(settings("echo", false), history, 80, 10);
    ui.start(100, &ByCount);
    ui
}

#[test]
fn the_view_follows_the_selection() {
    // Ten lines: the results fill the lines 5 to 9, five of them.
    let mut ui = many();
    assert_eq!(ui.matches.len(), 30);
    for expected in 1..=4 {
        let out = press(&mut ui, Key::Down);
        assert_eq!(out.redraw, Redraw::Rows(expected - 1));
        assert_eq!((ui.selection, ui.offset), (expected, 0));
    }
    let out = press(&mut ui, Key::Down);
    assert_eq!(out.redraw, Redraw::Full);
    assert_eq!((ui.selection, ui.offset), (5, 1));
    let out = press(&mut ui, Key::Down);
    assert_eq!(out.redraw, Redraw::Full);
    assert_eq!((ui.selection, ui.offset), (6, 2));
    for expected in [5, 4, 3, 2] {
        let out = press(&mut ui, Key::Up);
        assert_eq!(out.redraw, Redraw::Rows(expected + 1));
        assert_eq!((ui.selection, ui.offset), (expected, 2));
    }
    let out = press(&mut ui, Key::Up);
    assert_eq!(out.redraw, Redraw::Full);
    assert_eq!((ui.selection, ui.offset), (1, 1));
}

#[test]
fn a_new_size_brings_the_selection_into_view() {
    let mut ui = many();
    for _ in 0..4 {
        press(&mut ui, Key::Down);
    }
    assert_eq!((ui.selection, ui.offset), (4, 0));
    let out = ui.handle(Event::Resize(40, 8), 100, &ByCount);
    assert!(!out.exit);
    assert_eq!(out.redraw, Redraw::Full);
    assert_eq!((ui.width, ui.height), (40, 8));
    assert_eq!(ui.input.cap, 76);
    // Eight lines: the results fill the lines 5 to 7.
    assert_eq!((ui.selection, ui.offset), (4, 2));
    ui.handle(Event::Resize(40, 20), 100, &ByCount);
    assert_eq!((ui.selection, ui.offset), (4, 2));
    ui.handle(Event::Resize(40, 3), 100, &ByCount);
    assert_eq!((ui.selection, ui.offset), (4, 2));
}

#[test]
fn a_narrow_screen_cuts_the_prompt() {
    let mut ui = screen("git status --short");
    assert_eq!(ui.input.len, 18);
    ui.handle(Event::Resize(5, 24), 100, &ByCount);
    assert_eq!(ui.input.cap, 6);
    assert_eq!(ui.input.command, "git st");
    assert_eq!(ui.input.cursor, 6);
}

#[test]
fn the_rows_to_draw() {
    let mut ui = many();
    let place = |index, line, selected| RowPlace { index, line, selected };
    assert_eq!(
        ui.results(Redraw::Full),
        vec![
            place(0, 5, true),
            place(1, 6, false),
            place(2, 7, false),
            place(3, 8, false),
            place(4, 9, false)
        ]
    );
    press(&mut ui, Key::Down);
    assert_eq!(ui.results(Redraw::Rows(0)), vec![place(0, 5, false), place(1, 6, true)]);
    assert_eq!(ui.results(Redraw::Prompt), vec![]);
    for _ in 0..5 {
        press(&mut ui, Key::Down);
    }
    assert_eq!((ui.selection, ui.offset), (6, 2));
    assert_eq!(
        ui.results(Redraw::Full),
        vec![
            place(2, 5, false),
            place(3, 6, false),
            place(4, 7, false),
            place(5, 8, false),
            place(6, 9, true)
        ]
    );
    assert_eq!(ui.results(Redraw::Rows(0)), vec![place(6, 9, true)]);
    ui.handle(Event::Resize(80, 5), 100, &ByCount);
    assert_eq!(ui.results(Redraw::Full), vec![]);
}

#[test]
fn the_rows_to_draw_from_the_bottom() {
    let mut history = History::new();
    for i in 0..3 {
        history.add(&format!("echo {}", i), "S", "/r", 0, i, true);
    }
    let mut ui = Interface::new(settings("echo", true), history, 80, 10);
    ui.start(100, &ByCount);
    let place = |index, line, selected| RowPlace { index, line, selected };
    assert_eq!(
        ui.results(Redraw::Full),
        vec![place(0, 5, true), place(1, 4, false), place(2, 3, false)]
    );
    assert_eq!(ui.menubar().map(|b| b.0), Some(9));
    assert_eq!(ui.prompt(), Some((7, 7)));
}

#[test]
fn the_lines_of_the_screen() {
    assert_eq!(line_range(5, 24, false), Some((5, 23)));
    assert_eq!(line_range(5, 6, false), Some((5, 5)));
    assert_eq!(line_range(5, 5, false), None);
    assert_eq!(line_range(1, 0, false), None);
    assert_eq!(line_range(5, 24, true), Some((19, 0)));
    assert_eq!(line_range(5, 5, true), Some((0, 0)));
    assert_eq!(line_range(5, 4, true), None);
    assert_eq!(command_line_index((5, 23), 3, false), 8);
    assert_eq!(command_line_index((19, 0), 3, true), 16);
    assert_eq!(trans_position(80, (3, 3)), (3, 3));
    assert_eq!(trans_position(1, (7, 0)), (0, 7));
    assert_eq!(trans_position(80, (80, 3)), (0, 4));
    assert_eq!(trans_position(80, (170, 3)), (10, 5));
}

#[test]
fn the_place_of_the_cursor() {
    let mut ui = screen("git");
    assert_eq!(ui.prompt(), Some((6, 3)));
    press(&mut ui, Key::Home);
    assert_eq!(ui.prompt(), Some((3, 3)));
    let mut wide = Interface::new(settings(&"x".repeat(100), false), History::new(), 80, 24);
    assert_eq!(wide.prompt(), Some((23, 4)));
    wide.handle(Event::Resize(80, 3), 0, &ByCount);
    assert_eq!(wide.prompt(), None);
    wide.handle(Event::Resize(0, 24), 0, &ByCount);
    assert_eq!(wide.prompt(), None);
}

#[test]
fn the_menu_bar() {
    let text = |mode: MenuMode, rank, anywhere| mode.text(rank, anywhere);
    assert_eq!(
        text(MenuMode::Normal, true, true),
        "rhis | ⏎ - Run | TAB - Edit | F1 - Rank Sort | F2 - Delete | F3 - All Directories"
    );
    assert_eq!(
        text(MenuMode::Normal, false, false),
        "rhis | ⏎ - Run | TAB - Edit | F1 - Time Sort | F2 - Delete | F3 - This Directory"
    );
    assert_eq!(
        text(MenuMode::ConfirmDelete, true, false),
        "Delete selected command from the history? (Y/N)"
    );
    assert_eq!(MenuMode::Normal.bg(), Color::Blue);
    assert_eq!(MenuMode::ConfirmDelete.bg(), Color::Red);
    let ui = screen("git");
    assert_eq!(
        ui.menubar(),
        Some((
            1,
            "rhis | ⏎ - Run | TAB - Edit | F1 - Rank Sort | F2 - Delete | F3 - All Dire...".to_string()
        ))
    );
    let low = Interface::new(settings("", false), History::new(), 80, 1);
    assert!(low.menubar().is_none());
}

#[test]
fn the_colours_of_a_result() {
    assert_eq!(
        candidate_theme(true, true),
        (Color::DarkGrey, Color::White, Color::Grey, Color::DarkBlue)
    );
    assert_eq!(
        candidate_theme(true, false),
        (Color::Reset, Color::Black, Color::DarkBlue, Color::Blue)
    );
    assert_eq!(
        candidate_theme(false, true),
        (Color::White, Color::Black, Color::DarkGreen, Color::DarkBlue)
    );
    assert_eq!(
        candidate_theme(false, false),
        (Color::Reset, Color::White, Color::DarkGreen, Color::Blue)
    );
}

fn span(start: usize, end: usize, highlighted: bool) -> Span {
    Span { start, end, highlighted }
}

#[test]
fn the_stretches_of_a_line() {
    assert_eq!(highlight_spans(10, &vec![]), vec![span(0, 10, false)]);
    assert_eq!(highlight_spans(0, &vec![]), vec![]);
    assert_eq!(highlight_spans(10, &vec![(0, 10)]), vec![span(0, 10, true)]);
    assert_eq!(
        highlight_spans(10, &vec![(2, 4), (4, 6), (8, 9)]),
        vec![
            span(0, 2, false),
            span(2, 4, true),
            span(4, 6, true),
            span(6, 8, false),
            span(8, 9, true),
            span(9, 10, false)
        ]
    );
    assert_eq!(highlight_spans(5, &vec![(3, 8)]), vec![span(0, 3, false), span(3, 5, true)]);
    assert_eq!(highlight_spans(5, &vec![(1, 2), (5, 6), (0, 1)]), vec![
        span(0, 1, false),
        span(1, 2, true),
        span(2, 5, false)
    ]);
}

#[test]
fn the_text_of_a_result() {
    let command = Command {
        cmd: "git push origin main".to_string(),
        last_run: 0,
        match_bounds: vec![(4, 8), (16, 20)],
    };
    let (text, spans) = format_command_text(&command, "push", 80);
    assert_eq!(text, "git push origin main");
    assert_eq!(
        spans,
        vec![span(0, 4, false), span(4, 8, true), span(8, 16, false), span(16, 20, true)]
    );
    let (text, spans) = format_command_text(&command, "push", 24);
    assert_eq!(text, "git pus...");
    assert_eq!(spans, vec![span(0, 4, false), span(4, 8, true), span(8, 10, false)]);
    let (text, spans) = format_command_text(&command, "", 80);
    assert_eq!(text, "git push origin main");
    assert_eq!(spans, vec![span(0, 20, false)]);
    let (text, spans) = format_command_text(&command, "push", 10);
    assert_eq!(text, "...");
    assert_eq!(spans, vec![span(0, 3, false)]);
}

#[test]
fn a_text_cut_to_the_width() {
    assert_eq!(cut_to_width("hello world", 12), "hello world");
    assert_eq!(cut_to_width("hello world", 11), "hello w...");
    assert_eq!(cut_to_width("hello world", 5), "h...");
    assert_eq!(cut_to_width("hello world", 4), "...");
    assert_eq!(cut_to_width("hello world", 0), "...");
    assert_eq!(cut_to_width("", 0), "");
    // The sign is three bytes long: a cut inside it falls back to its start.
    assert_eq!(cut_to_width("rhis | ⏎ - Run", 13), "rhis | ...");
    assert_eq!(cut_to_width("rhis | ⏎ - Run", 14), "rhis | ⏎...");
    assert_eq!(cut_to_width("rhis | ⏎ - Run", 16), "rhis | ⏎ -...");
    assert_eq!(cut_to_width("rhis | ⏎ - Run", 17), "rhis | ⏎ - Run");
}

#[test]
fn the_screen_notes_the_command_without_its_mark() {
    let mut ui = screen("git");
    press(&mut ui, Key::Tab);
    assert_eq!(ui.finish(), Some("git push\t".to_string()));
    assert_eq!(ui.history.selected_commands.len(), 1);
    assert_eq!(ui.history.selected_commands[0].cmd, "git push");
    let mut history = ui.history;
    history.add("git push", "S", "/r", 0, 200, true);
    let row = history.commands.iter().find(|r| r.cmd == "git push" && r.dir.as_deref() == Some("/r"));
    assert_eq!(row.map(|r| r.selected), Some(1));
    assert!(history.selected_commands.is_empty());
}
