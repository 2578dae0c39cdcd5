//! The search screen as a state machine.
//!
//! The caller reads the terminal and draws; the machine keeps the state.
//! `start` opens the screen, `handle` takes one event and says what is to be
//! drawn anew and whether the screen closes, `finish` gives the command that
//! was accepted.

use crate::command_input::{least, CommandInput, Move};
use crate::fixed_length_grapheme_string::{pushed, FixedLengthGraphemeString};
use crate::history::{matches_view, Command, History};
use crate::matcher::search;
use crate::ranker::{context_rows, ranked_by, unranked, Scorer};
use crate::settings::Settings;
use crate::text::{
    any_clear, chars_of, is_white_space, marks_of, push_char, string_between, white_marks,
};
use crate::text::lemma_encode_concat;
use vstd::prelude::*;
use vstd::string::*;
use vstd::utf8::{encode_utf8, is_char_boundary};

verus! {

#[derive(Clone, Copy, Debug)]
pub enum MoveSelection {
    Up,
    Down,
}

#[derive(Clone, Copy, Debug, PartialEq, Eq, Structural)]
pub enum MenuMode {
    Normal,
    ConfirmDelete,
}

/// A colour of the terminal.
#[derive(Clone, Copy, Debug, PartialEq, Eq, Structural)]
pub enum Color {
    Reset,
    Black,
    White,
    Grey,
    DarkGrey,
    Red,
    Blue,
    DarkBlue,
    DarkGreen,
}

/// A key of the keyboard.
#[derive(Clone, Copy, Debug)]
pub enum Key {
    Enter,
    Tab,
    Left,
    Right,
    Up,
    Down,
    Backspace,
    Delete,
    Home,
    End,
    Char(char),
    F(u8),
    Other,
}

/// A key that was pressed. `control` says that it was pressed together with
/// the control key and no other.
#[derive(Clone, Copy, Debug)]
pub struct KeyPress {
    pub code: Key,
    pub control: bool,
}

/// What the terminal reports.
#[derive(Clone, Copy, Debug)]
pub enum Event {
    Key(KeyPress),
    Resize(u16, u16),
    Other,
}

/// How much of the screen is to be drawn anew.
#[derive(Clone, Copy, Debug, PartialEq, Eq, Structural)]
pub enum Redraw {
    /// Everything: the visible rows, the menu bar and the prompt.
    Full,
    /// The row that was selected before, the row that is selected now, and
    /// the cursor.
    Rows(usize),
    /// The cursor of the prompt.
    Prompt,
}

/// What one event leaves for the caller to do.
pub struct Outcome {
    /// The screen closes.
    pub exit: bool,
    pub redraw: Redraw,
    /// A command that was deleted from the store and is to be deleted from
    /// the history file of the shell as well.
    pub forget: Option<String>,
}

/// The state of the search screen.
pub struct Interface {
    pub history: History,
    pub settings: Settings,
    pub input: CommandInput,
    /// Index of the selected match; 0 if there is none.
    pub selection: usize,
    /// Index of the first match that is visible.
    pub offset: usize,
    pub matches: Vec<Command>,
    pub menu_mode: MenuMode,
    /// Order the matches by rank, not by time.
    pub rank: bool,
    /// Show the commands of all directories.
    pub anywhere: bool,
    pub width: u16,
    pub height: u16,
    /// The command that was accepted, with the mark at its end that says
    /// whether the shell is to run it; empty if none was.
    pub accepted: String,
}

/// The lines of the screen that the menu bar, the prompt and the first
/// result need above them, or below them when the screen is drawn from the
/// bottom.
pub const MENU_LINE: u16 = 1;

pub const PROMPT_LINE: u16 = 3;

pub const RESULT_LINE: u16 = 5;

/// The lines from which to which a part of the screen reaches that starts at
/// line `n`: downwards to the last line, or from the `n`th line above the
/// bottom upwards to the first. None if the screen is too low for it.
pub open spec fn line_range_spec(n: u16, height: u16, bottom: bool) -> Option<(u16, u16)> {
    if bottom {
        if height >= n {
            Some(((height - n) as u16, 0u16))
        } else {
            None
        }
    } else if height <= n {
        None
    } else {
        Some((n, (height - 1) as u16))
    }
}

/// The lines of a part of the screen.
pub fn line_range(n: u16, height: u16, bottom: bool) -> (area: Option<(u16, u16)>)
    ensures
        area == line_range_spec(n, height, bottom),
{
    if bottom {
        if height >= n {
            Some((height - n, 0))
        } else {
            None
        }
    } else if height <= n {
        None
    } else {
        Some((n, height - 1))
    }
}

/// How many rows lie behind the first one in the area.
pub open spec fn rows_of(area: (u16, u16)) -> int {
    if area.0 <= area.1 {
        area.1 - area.0
    } else {
        area.0 - area.1
    }
}

/// How many results the screen shows behind the first one, if it shows any.
pub open spec fn result_rows(height: u16, bottom: bool) -> Option<int> {
    match line_range_spec(RESULT_LINE, height, bottom) {
        Some(area) => Some(rows_of(area)),
        None => None,
    }
}

/// The line of the `k`th row of an area: below its first line, or above it
/// when the screen is drawn from the bottom.
pub fn command_line_index(area: (u16, u16), k: u16, bottom: bool) -> (line: u16)
    requires
        k <= rows_of(area),
        bottom ==> area.1 <= area.0,
        !bottom ==> area.0 <= area.1,
    ensures
        line as int == if bottom {
            area.0 - k
        } else {
            area.0 + k
        },
{
    if bottom {
        area.0 - k
    } else {
        area.0 + k
    }
}

/// The place of a column that lies beyond the right edge: as many lines down
/// as the width goes into the column.
pub fn trans_position(width: u16, pos: (u16, u16)) -> (place: (u16, u16))
    requires
        width > 0,
        pos.1 + pos.0 / width <= u16::MAX,
    ensures
        place.0 == pos.0 % width,
        place.1 == pos.1 + pos.0 / width,
{
    let lines = pos.0 / width;
    assert(width * lines <= pos.0 && pos.0 - width * lines == pos.0 % width) by (nonlinear_arith)
        requires
            width > 0,
            lines == pos.0 / width,
    ;
    (pos.0 - width * lines, pos.1 + lines)
}

/// The colours of a result: background, text, the places of the pattern, and
/// the time.
pub fn candidate_theme(light: bool, hi: bool) -> (theme: (Color, Color, Color, Color))
    ensures
        theme == if light {
            if hi {
                (Color::DarkGrey, Color::White, Color::Grey, Color::DarkBlue)
            } else {
                (Color::Reset, Color::Black, Color::DarkBlue, Color::Blue)
            }
        } else {
            if hi {
                (Color::White, Color::Black, Color::DarkGreen, Color::DarkBlue)
            } else {
                (Color::Reset, Color::White, Color::DarkGreen, Color::Blue)
            }
        },
{
    if light {
        if hi {
            (Color::DarkGrey, Color::White, Color::Grey, Color::DarkBlue)
        } else {
            (Color::Reset, Color::Black, Color::DarkBlue, Color::Blue)
        }
    } else {
        if hi {
            (Color::White, Color::Black, Color::DarkGreen, Color::DarkBlue)
        } else {
            (Color::Reset, Color::White, Color::DarkGreen, Color::Blue)
        }
    }
}

/// The text of the menu bar.
pub open spec fn menu_text(mode: MenuMode, rank: bool, anywhere: bool) -> Seq<char> {
    if mode == MenuMode::ConfirmDelete {
        "Delete selected command from the history? (Y/N)"@
    } else {
        "rhis"@ + " | ⏎ - Run | TAB - Edit | "@ + (if rank {
            "F1 - Rank Sort | "@
        } else {
            "F1 - Time Sort | "@
        }) + "F2 - Delete | "@ + (if anywhere {
            "F3 - All Directories"@
        } else {
            "F3 - This Directory"@
        })
    }
}

impl MenuMode {
    /// The text of the menu bar: the keys and what they do now, or the
    /// question whether to delete.
    pub fn text(&self, rank: bool, anywhere: bool) -> (text: String)
        ensures
            text@ == menu_text(*self, rank, anywhere),
    {
        match self {
            MenuMode::ConfirmDelete => "Delete selected command from the history? (Y/N)".to_owned(),
            MenuMode::Normal => {
                let mut text = "rhis".to_owned();
                text.append(" | ⏎ - Run | TAB - Edit | ");
                if rank {
                    text.append("F1 - Rank Sort | ");
                } else {
                    text.append("F1 - Time Sort | ");
                }
                text.append("F2 - Delete | ");
                if anywhere {
                    text.append("F3 - All Directories");
                } else {
                    text.append("F3 - This Directory");
                }
                text
            },
        }
    }

    /// The colour of the menu bar.
    pub fn bg(&self) -> (color: Color)
        ensures
            color == if *self == MenuMode::Normal {
                Color::Blue
            } else {
                Color::Red
            },
    {
        match self {
            MenuMode::Normal => Color::Blue,
            MenuMode::ConfirmDelete => Color::Red,
        }
    }
}

/// One stretch of a line: from which byte to which, and whether it holds
/// the pattern.
#[derive(Clone, Copy, Debug, PartialEq, Eq, Structural)]
pub struct Span {
    pub start: usize,
    pub end: usize,
    pub highlighted: bool,
}

/// A stretch as plain values.
pub open spec fn span_view(span: Span) -> (int, int, bool) {
    (span.start as int, span.end as int, span.highlighted)
}

/// The stretches as plain values.
pub open spec fn spans_view(spans: Seq<Span>) -> Seq<(int, int, bool)> {
    Seq::new(spans.len(), |i: int| span_view(spans[i]))
}

/// The stretches of a line of `len` bytes when the places `bounds[from..]`
/// are marked and the line has been laid out up to `prev`. A place that
/// begins behind the line ends the marking; a place that reaches behind the
/// line is cut at its end.
pub open spec fn spans_from(len: int, bounds: Seq<(int, int)>, from: int, prev: int) -> Seq<
    (int, int, bool),
>
    decreases bounds.len() - from,
{
    if from < 0 || from >= bounds.len() || bounds[from].0 >= len {
        if prev != len {
            seq![(prev, len, false)]
        } else {
            Seq::empty()
        }
    } else {
        let start = bounds[from].0;
        let end = least(bounds[from].1, len);
        let gap = if prev != start {
            seq![(prev, start, false)]
        } else {
            Seq::empty()
        };
        gap + seq![(start, end, true)] + spans_from(len, bounds, from + 1, end)
    }
}

/// The stretches of a line of `len` bytes in which the places `bounds` are
/// marked.
pub fn highlight_spans(len: usize, bounds: &Vec<(usize, usize)>) -> (spans: Vec<Span>)
    ensures
        spans_view(spans@) == spans_from(len as int, crate::text::bounds_of(bounds@), 0, 0),
{
    let ghost marks = crate::text::bounds_of(bounds@);
    let mut spans: Vec<Span> = Vec::new();
    let mut prev: usize = 0;
    let mut i: usize = 0;
    proof {
        assert(spans_view(spans@) + spans_from(len as int, marks, 0, 0) =~= spans_from(
            len as int,
            marks,
            0,
            0,
        ));
    }
    while i < bounds.len() && bounds[i].0 < len
        invariant
            i <= bounds.len(),
            marks == crate::text::bounds_of(bounds@),
            spans_view(spans@) + spans_from(len as int, marks, i as int, prev as int) == spans_from(
                len as int,
                marks,
                0,
                0,
            ),
        decreases bounds.len() - i,
    {
        let start = bounds[i].0;
        let end = if bounds[i].1 > len {
            len
        } else {
            bounds[i].1
        };
        let ghost before = spans_view(spans@);
        let ghost rest = spans_from(len as int, marks, i + 1, end as int);
        if prev != start {
            spans.push(Span { start: prev, end: start, highlighted: false });
        }
        spans.push(Span { start, end, highlighted: true });
        proof {
            assert(marks[i as int] == (bounds@[i as int].0 as int, bounds@[i as int].1 as int));
            let gap = if prev != start {
                seq![(prev as int, start as int, false)]
            } else {
                Seq::empty()
            };
            assert(spans_view(spans@) =~= before + gap + seq![(start as int, end as int, true)]);
            assert(spans_view(spans@) + rest =~= before + (gap + seq![
                (start as int, end as int, true),
            ] + rest));
        }
        prev = end;
        i += 1;
    }
    let ghost before = spans_view(spans@);
    if prev != len {
        spans.push(Span { start: prev, end: len, highlighted: false });
        proof {
            assert(spans_view(spans@) =~= before + seq![(prev as int, len as int, false)]);
        }
    } else {
        proof {
            assert(before + Seq::<(int, int, bool)>::empty() =~= before);
        }
    }
    proof {
        if i < bounds.len() {
            assert(marks[i as int].0 >= len);
        }
    }
    spans
}

/// The limit that a search is given for a number of results. A number that
/// a signed limit cannot hold is a negative limit, which is none.
pub open spec fn limit_of(results: u16) -> int {
    if results <= 0x7fff {
        results as int
    } else {
        results - 0x1_0000
    }
}

/// The room that a screen of width `w` gives the prompt: twice the width
/// less four, as far as the counter of the editor reaches.
pub open spec fn input_room(w: u16) -> int {
    if w < 2 {
        0
    } else if 2 * w - 4 > u16::MAX {
        u16::MAX as int
    } else {
        2 * w - 4
    }
}

/// The room that a screen of width `w` gives the prompt.
pub fn input_width(w: u16) -> (room: u16)
    ensures
        room == input_room(w),
{
    if w < 2 {
        0
    } else if w - 2 > 0x7fff {
        u16::MAX
    } else {
        (w - 2) * 2
    }
}

/// Does the text hold anything but white space?
pub open spec fn has_ink(text: Seq<char>) -> bool {
    exists|i: int| 0 <= i < text.len() && !is_white_space(#[trigger] text[i])
}

/// The mark at the end of an accepted command: a line feed if the shell is
/// to run it, a tab if the user is to edit it first.
pub open spec fn sentinel(run: bool) -> char {
    if run {
        '\n'
    } else {
        '\t'
    }
}

/// Where the selection goes: one down, or up, the other way round when the
/// screen is drawn from the bottom; never off the list.
pub open spec fn moved_selection(selection: int, len: int, bottom: bool, down: bool) -> int {
    let aim = if bottom == down {
        selection - 1
    } else {
        selection + 1
    };
    if aim > len - 1 {
        if len >= 1 {
            len - 1
        } else {
            0
        }
    } else if aim < 0 {
        0
    } else {
        aim
    }
}

/// The first visible match after the screen was resized: as it was while the
/// selection is visible, else such that the selection is the last visible
/// match, or the first match if there are too few.
pub open spec fn offset_after_resize(offset: int, selection: int, rows: int) -> int {
    if offset <= selection <= offset + rows {
        offset
    } else if selection >= rows {
        selection - rows
    } else {
        0
    }
}

/// The first visible match after the selection moved: one further when the
/// selection went one below the last visible match, the selection itself
/// when it went one above the first.
pub open spec fn offset_after_move(offset: int, selection: int, rows: int) -> int {
    if selection == offset + rows + 1 {
        offset + 1
    } else if offset == selection + 1 {
        selection
    } else {
        offset
    }
}

impl Interface {
    /// The invariant of the screen: its parts are in order, the selection is
    /// a match if there is one, and the first visible match is not behind
    /// the selection.
    pub open spec fn wf(&self) -> bool {
        &&& self.history.wf()
        &&& self.input.wf()
        &&& self.selection < self.matches@.len() || self.selection == 0
        &&& self.offset <= self.selection
    }

    /// The matches are those that a search for the text of the prompt gives.
    pub open spec fn is_fresh(&self) -> bool {
        matches_view(self.matches@) == search(
            self.history.context(),
            self.input.command@,
            limit_of(self.settings.results),
            self.rank,
        )
    }

    /// Everything but the prompt, the matches, the selection and the view is
    /// as it was.
    pub open spec fn same_frame(&self, before: &Interface) -> bool {
        &&& self.history == before.history
        &&& self.settings == before.settings
        &&& self.menu_mode == before.menu_mode
        &&& self.rank == before.rank
        &&& self.anywhere == before.anywhere
        &&& self.width == before.width
        &&& self.height == before.height
        &&& self.accepted == before.accepted
    }

    /// A screen of `w` columns and `h` lines over the store, with the
    /// command of the settings in the prompt.
    pub fn new(settings: Settings, history: History, w: u16, h: u16) -> (screen: Interface)
        requires
            history.wf(),
        ensures
            screen.wf(),
            screen.history == history,
            screen.settings == settings,
            screen.input.shows(settings.command@),
            screen.input.cap == input_room(w),
            screen.input.cursor == screen.input.len,
            screen.selection == 0,
            screen.offset == 0,
            screen.matches@.len() == 0,
            screen.menu_mode == MenuMode::Normal,
            screen.rank,
            screen.anywhere,
            screen.width == w,
            screen.height == h,
            screen.accepted@ == Seq::<char>::empty(),
    {
        let input = CommandInput::from(settings.command.as_str(), input_width(w));
        Interface {
            history,
            settings,
            input,
            selection: 0,
            offset: 0,
            matches: Vec::new(),
            menu_mode: MenuMode::Normal,
            rank: true,
            anywhere: true,
            width: w,
            height: h,
            accepted: String::new(),
        }
    }

    /// Builds the context of the store anew for the directory of the
    /// settings and ranks its rows.
    pub fn build_cache_table<S: Scorer>(&mut self, now: i64, scorer: &S)
        requires
            old(self).wf(),
            now >= 0,
        ensures
            final(self).wf(),
            final(self).history.commands == old(self).history.commands,
            final(self).history.selected_commands == old(self).history.selected_commands,
            unranked(final(self).history.context()) == unranked(
                context_rows(
                    old(self).history.rows(),
                    old(self).settings.dir@,
                    old(self).anywhere,
                    now as int,
                    0,
                ),
            ),
            ranked_by(final(self).history.contextual_commands@, scorer),
            final(self).settings == old(self).settings,
            final(self).input == old(self).input,
            final(self).selection == old(self).selection,
            final(self).offset == old(self).offset,
            final(self).matches == old(self).matches,
            final(self).menu_mode == old(self).menu_mode,
            final(self).rank == old(self).rank,
            final(self).anywhere == old(self).anywhere,
            final(self).width == old(self).width,
            final(self).height == old(self).height,
            final(self).accepted == old(self).accepted,
    {
        self.history.build_cache_table(self.settings.dir.as_str(), self.anywhere, now);
        self.history.rank_rows(scorer);
    }

    /// Searches for the text of the prompt. The selection goes back to the
    /// first match if `reset_selection` says so, else it stays, or goes to
    /// the last match if there are fewer now.
    pub fn refresh_matches(&mut self, reset_selection: bool)
        requires
            old(self).wf(),
        ensures
            final(self).wf(),
            final(self).is_fresh(),
            final(self).same_frame(old(self)),
            final(self).input == old(self).input,
            reset_selection ==> final(self).selection == 0 && final(self).offset == 0,
            !reset_selection ==> final(self).selection as int == least(
                old(self).selection as int,
                if final(self).matches@.len() > 0 {
                    final(self).matches@.len() - 1
                } else {
                    0
                },
            ),
            !reset_selection ==> final(self).offset as int == least(
                old(self).offset as int,
                final(self).selection as int,
            ),
    {
        let results = self.settings.results;
        let num: i16 = if results <= 0x7fff {
            results as i16
        } else {
            (results as i32 - 0x1_0000) as i16
        };
        self.matches = self.history.find_matches(self.input.command.as_str(), num, self.rank);
        if reset_selection {
            self.selection = 0;
            self.offset = 0;
        } else {
            let last = if self.matches.len() > 0 {
                self.matches.len() - 1
            } else {
                0
            };
            if self.selection > last {
                self.selection = last;
            }
            if self.offset > self.selection {
                self.offset = self.selection;
            }
        }
    }

    /// Moves the selection by one.
    pub fn move_selection(&mut self, direction: MoveSelection)
        requires
            old(self).wf(),
        ensures
            final(self).same_frame(old(self)),
            final(self).input == old(self).input,
            final(self).matches == old(self).matches,
            final(self).offset == old(self).offset,
            final(self).selection as int == moved_selection(
                old(self).selection as int,
                old(self).matches@.len() as int,
                old(self).settings.bottom,
                direction is Down,
            ),
            final(self).selection < final(self).matches@.len() || final(self).selection == 0,
    {
        let down = match direction {
            MoveSelection::Down => true,
            MoveSelection::Up => false,
        };
        let len = self.matches.len();
        if self.settings.bottom == down {
            if self.selection > 0 {
                self.selection = self.selection - 1;
            }
        } else if len > 0 && self.selection < len - 1 {
            self.selection = self.selection + 1;
        }
    }

    /// Accepts the selected match, or the text of the prompt if there is no
    /// match, and puts the mark behind it. Nothing is accepted if both are
    /// empty.
    pub fn accept_selection(&mut self, run: bool)
        requires
            old(self).wf(),
        ensures
            final(self).wf(),
            final(self).history == old(self).history,
            final(self).settings == old(self).settings,
            final(self).input == old(self).input,
            final(self).selection == old(self).selection,
            final(self).offset == old(self).offset,
            final(self).matches == old(self).matches,
            final(self).menu_mode == old(self).menu_mode,
            final(self).rank == old(self).rank,
            final(self).anywhere == old(self).anywhere,
            final(self).width == old(self).width,
            final(self).height == old(self).height,
            final(self).accepted@ == old(self).accepted_text(run),
    {
        let mut text = if self.matches.len() > 0 {
            self.matches[self.selection].cmd.clone()
        } else {
            self.input.command.clone()
        };
        if text.as_str().is_empty() {
            self.accepted = text;
            return ;
        }
        push_char(
            &mut text,
            if run {
                '\n'
            } else {
                '\t'
            },
        );
        self.accepted = text;
    }

    /// What accepting gives.
    pub open spec fn accepted_text(&self, run: bool) -> Seq<char> {
        let text = if self.matches@.len() > 0 {
            self.matches@[self.selection as int].cmd@
        } else {
            self.input.command@
        };
        if text.len() == 0 {
            text
        } else {
            text.push(sentinel(run))
        }
    }

    /// Deletes the selected match from the store and searches again. Gives
    /// the command that was deleted, if there was one.
    pub fn delete_selection(&mut self) -> (forget: Option<String>)
        requires
            old(self).wf(),
        ensures
            final(self).wf(),
            forget is Some ==> final(self).is_fresh(),
            final(self).settings == old(self).settings,
            final(self).input == old(self).input,
            final(self).menu_mode == old(self).menu_mode,
            final(self).rank == old(self).rank,
            final(self).anywhere == old(self).anywhere,
            final(self).width == old(self).width,
            final(self).height == old(self).height,
            final(self).accepted == old(self).accepted,
            forget is Some <==> old(self).matches@.len() > 0,
            forget matches Some(cmd) ==> {
                &&& cmd@ == old(self).matches@[old(self).selection as int].cmd@
                &&& final(self).history.rows() == crate::history::other_commands(
                    old(self).history.rows(),
                    cmd@,
                )
                &&& final(self).history.context() == crate::history::context_without(
                    old(self).history.context(),
                    cmd@,
                )
                &&& final(self).history.selected_commands == old(self).history.selected_commands
            },
            forget is None ==> final(self).history == old(self).history && final(self).matches
                == old(self).matches && final(self).selection == old(self).selection
                && final(self).offset == old(self).offset,
    {
        if self.matches.len() == 0 {
            return None;
        }
        let cmd = self.matches[self.selection].cmd.clone();
        self.history.delete_command(cmd.as_str());
        self.refresh_matches(false);
        Some(cmd)
    }

    /// The settings, the size of the screen and what was accepted are as
    /// they were.
    pub open spec fn same_screen(&self, before: &Interface) -> bool {
        &&& self.settings == before.settings
        &&& self.width == before.width
        &&& self.height == before.height
        &&& self.accepted == before.accepted
    }

    /// The matches, the selection and the view are as they were.
    pub open spec fn same_list(&self, before: &Interface) -> bool {
        &&& self.matches == before.matches
        &&& self.selection == before.selection
        &&& self.offset == before.offset
    }

    /// The matches were searched anew and the first one is selected.
    pub open spec fn is_reset(&self) -> bool {
        &&& self.is_fresh()
        &&& self.selection == 0
        &&& self.offset == 0
    }

    /// The invariant of the screen but that the first visible match may be
    /// the one behind the selection: the state between a key and the
    /// scrolling that follows it.
    pub open spec fn wf_unscrolled(&self) -> bool {
        &&& self.history.wf()
        &&& self.input.wf()
        &&& self.selection < self.matches@.len() || self.selection == 0
        &&& self.offset <= self.selection + 1
    }

    /// Answers the question whether to delete: deletes the selected match if
    /// the answer is yes, and goes back to the normal mode.
    pub fn confirm(&mut self, confirmation: bool) -> (forget: Option<String>)
        requires
            old(self).wf(),
        ensures
            final(self).wf(),
            final(self).menu_mode == MenuMode::Normal,
            final(self).is_confirm_of(old(self), confirmation, forget),
    {
        let mut forget: Option<String> = None;
        if confirmation && self.menu_mode == MenuMode::ConfirmDelete {
            forget = self.delete_selection();
        }
        self.menu_mode = MenuMode::Normal;
        forget
    }

    /// `self` is what `before` becomes when the question whether to delete
    /// is answered.
    pub open spec fn is_confirm_of(
        &self,
        before: &Interface,
        confirmation: bool,
        forget: Option<String>,
    ) -> bool {
        &&& self.menu_mode == MenuMode::Normal
        &&& self.same_screen(before)
        &&& self.input == before.input
        &&& self.rank == before.rank
        &&& self.anywhere == before.anywhere
        &&& forget is Some <==> confirmation && before.menu_mode == MenuMode::ConfirmDelete
            && before.matches@.len() > 0
        &&& forget matches Some(cmd) ==> {
            &&& cmd@ == before.matches@[before.selection as int].cmd@
            &&& self.history.rows() == crate::history::other_commands(before.history.rows(), cmd@)
            &&& self.history.context() == crate::history::context_without(
                before.history.context(),
                cmd@,
            )
            &&& self.history.selected_commands == before.history.selected_commands
            &&& self.is_fresh()
        }
        &&& forget is None ==> self.history == before.history && self.same_list(before)
    }

    /// Shows the commands of all directories if it showed those of this one,
    /// and the other way round, and builds the context anew.
    pub fn switch_result_filter<S: Scorer>(&mut self, now: i64, scorer: &S)
        requires
            old(self).wf(),
            now >= 0,
        ensures
            final(self).wf(),
            final(self).is_filter_switch_of(old(self), now as int, scorer),
            final(self).same_list(old(self)),
    {
        self.anywhere = !self.anywhere;
        self.build_cache_table(now, scorer);
    }

    /// `self` is what `before` becomes when the directory filter is
    /// switched, but for the matches.
    pub open spec fn is_filter_switch_of<S: Scorer>(
        &self,
        before: &Interface,
        now: int,
        scorer: &S,
    ) -> bool {
        &&& ranked_by(self.history.contextual_commands@, scorer)
        &&& self.anywhere == !before.anywhere
        &&& self.same_screen(before)
        &&& self.input == before.input
        &&& self.rank == before.rank
        &&& self.menu_mode == before.menu_mode
        &&& self.history.commands == before.history.commands
        &&& self.history.selected_commands == before.history.selected_commands
        &&& unranked(self.history.context()) == unranked(
            context_rows(before.history.rows(), before.settings.dir@, !before.anywhere, now, 0),
        )
    }

    /// `self` is what `before` becomes when `key` is pressed in the normal
    /// mode, before the screen scrolls. `exit` says that the screen closes.
    pub open spec fn is_key_of<S: Scorer>(
        &self,
        before: &Interface,
        key: Key,
        now: int,
        scorer: &S,
        exit: bool,
    ) -> bool {
        match key {
            Key::Enter => {
                &&& exit
                &&& self.accepted@ == before.accepted_text(true)
                &&& self.is_accept_of(before)
            },
            Key::Tab => {
                &&& exit
                &&& self.accepted@ == before.accepted_text(false)
                &&& self.is_accept_of(before)
            },
            Key::Left => !exit && self.is_cursor_move_of(before, Move::Backward),
            Key::Right => !exit && self.is_cursor_move_of(before, Move::Forward),
            Key::Home => !exit && self.is_cursor_move_of(before, Move::BOL),
            Key::End => !exit && self.is_cursor_move_of(before, Move::EOL),
            Key::Up => !exit && self.is_selection_move_of(before, false),
            Key::Down => !exit && self.is_selection_move_of(before, true),
            Key::Backspace => {
                &&& !exit
                &&& self.input.is_delete_of(&before.input, Move::Backward)
                &&& self.same_frame(before)
                &&& self.is_reset()
            },
            Key::Delete => {
                &&& !exit
                &&& self.input.is_delete_of(&before.input, Move::Forward)
                &&& self.same_frame(before)
                &&& self.is_reset()
            },
            Key::Char(c) => {
                &&& !exit
                &&& self.input.is_insert_of(&before.input, c)
                &&& self.same_frame(before)
                &&& self.is_reset()
            },
            Key::F(n) => if n == 1 {
                &&& !exit
                &&& self.rank == !before.rank
                &&& self.history == before.history
                &&& self.input == before.input
                &&& self.menu_mode == before.menu_mode
                &&& self.anywhere == before.anywhere
                &&& self.same_screen(before)
                &&& self.is_reset()
            } else if n == 2 {
                &&& !exit
                &&& self.menu_mode == if before.matches@.len() > 0 {
                    MenuMode::ConfirmDelete
                } else {
                    before.menu_mode
                }
                &&& self.history == before.history
                &&& self.input == before.input
                &&& self.rank == before.rank
                &&& self.anywhere == before.anywhere
                &&& self.same_screen(before)
                &&& self.same_list(before)
            } else if n == 3 {
                &&& !exit
                &&& self.is_filter_switch_of(before, now, scorer)
                &&& self.is_reset()
            } else {
                !exit && *self == *before
            },
            Key::Other => !exit && *self == *before,
        }
    }

    /// Nothing but what was accepted has changed.
    pub open spec fn is_accept_of(&self, before: &Interface) -> bool {
        &&& self.history == before.history
        &&& self.settings == before.settings
        &&& self.input == before.input
        &&& self.same_list(before)
        &&& self.menu_mode == before.menu_mode
        &&& self.rank == before.rank
        &&& self.anywhere == before.anywhere
        &&& self.width == before.width
        &&& self.height == before.height
    }

    /// Nothing but the cursor of the prompt has changed, and it has moved
    /// as `direction` says.
    pub open spec fn is_cursor_move_of(&self, before: &Interface, direction: Move) -> bool {
        &&& self.input.is_move_of(&before.input, direction)
        &&& self.same_frame(before)
        &&& self.same_list(before)
    }

    /// Nothing but the selection has changed, and it has moved by one.
    pub open spec fn is_selection_move_of(&self, before: &Interface, down: bool) -> bool {
        &&& self.same_frame(before)
        &&& self.input == before.input
        &&& self.matches == before.matches
        &&& self.offset == before.offset
        &&& self.selection as int == moved_selection(
            before.selection as int,
            before.matches@.len() as int,
            before.settings.bottom,
            down,
        )
    }

    /// Takes a key in the normal mode.
    pub fn key_handler<S: Scorer>(&mut self, key: Key, now: i64, scorer: &S) -> (exit: bool)
        requires
            old(self).wf(),
            now >= 0,
        ensures
            final(self).wf_unscrolled(),
            final(self).is_key_of(old(self), key, now as int, scorer, exit),
    {
        match key {
            Key::Enter => {
                self.accept_selection(true);
                return true;
            },
            Key::Tab => {
                self.accept_selection(false);
                return true;
            },
            Key::Left => self.input.move_cursor(Move::Backward),
            Key::Right => self.input.move_cursor(Move::Forward),
            Key::Up => self.move_selection(MoveSelection::Up),
            Key::Down => self.move_selection(MoveSelection::Down),
            Key::Backspace => {
                self.input.delete(Move::Backward);
                self.refresh_matches(true);
            },
            Key::Delete => {
                self.input.delete(Move::Forward);
                self.refresh_matches(true);
            },
            Key::Home => self.input.move_cursor(Move::BOL),
            Key::End => self.input.move_cursor(Move::EOL),
            Key::Char(c) => {
                self.input.insert(c);
                self.refresh_matches(true);
            },
            Key::F(n) => {
                if n == 1 {
                    self.rank = !self.rank;
                    self.refresh_matches(true);
                } else if n == 2 {
                    if self.matches.len() > 0 {
                        self.menu_mode = MenuMode::ConfirmDelete;
                    }
                } else if n == 3 {
                    self.switch_result_filter(now, scorer);
                    self.refresh_matches(true);
                }
            },
            Key::Other => {},
        }
        false
    }

    /// Is this the key that breaks off: `c` with the control key?
    pub open spec fn is_break(press: KeyPress) -> bool {
        press.control && press.code == Key::Char('c')
    }

    /// The answer that a key gives to the question whether to delete, if it
    /// gives one.
    pub open spec fn answer(key: Key) -> Option<bool> {
        match key {
            Key::Char(c) => if c == 'y' || c == 'Y' {
                Some(true)
            } else if c == 'n' || c == 'N' {
                Some(false)
            } else {
                None
            },
            _ => None,
        }
    }

    /// `self` is what `before` becomes when a key is pressed, before the
    /// screen scrolls.
    ///
    /// While the screen asks whether to delete, a key that answers is taken
    /// as the answer and every other key is ignored. In the normal mode the
    /// break key empties the prompt, accepts nothing and closes the screen,
    /// and every other key does what `is_key_of` says.
    pub open spec fn is_press_of<S: Scorer>(
        &self,
        before: &Interface,
        press: KeyPress,
        now: int,
        scorer: &S,
        exit: bool,
        forget: Option<String>,
    ) -> bool {
        if before.menu_mode != MenuMode::Normal {
            &&& !exit
            &&& match Self::answer(press.code) {
                Some(yes) => self.is_confirm_of(before, yes, forget),
                None => forget is None && *self == *before,
            }
        } else if Self::is_break(press) {
            &&& exit
            &&& forget is None
            &&& self.accepted@ == Seq::<char>::empty()
            &&& self.input.command@ == Seq::<char>::empty()
            &&& self.input.cursor == 0
            &&& self.input.cap == before.input.cap
            &&& self.history == before.history
            &&& self.settings == before.settings
            &&& self.same_list(before)
            &&& self.menu_mode == before.menu_mode
            &&& self.rank == before.rank
            &&& self.anywhere == before.anywhere
        } else {
            forget is None && self.is_key_of(before, press.code, now, scorer, exit)
        }
    }

    /// Takes a key.
    pub fn key_code_handler<S: Scorer>(&mut self, press: KeyPress, now: i64, scorer: &S) -> (done: (
        bool,
        Option<String>,
    ))
        requires
            old(self).wf(),
            now >= 0,
        ensures
            final(self).wf_unscrolled(),
            final(self).is_press_of(old(self), press, now as int, scorer, done.0, done.1),
    {
        if self.menu_mode != MenuMode::Normal {
            let mut forget: Option<String> = None;
            if let Key::Char(c) = press.code {
                if c == 'y' || c == 'Y' {
                    forget = self.confirm(true);
                } else if c == 'n' || c == 'N' {
                    forget = self.confirm(false);
                }
            }
            return (false, forget);
        }
        if press.control {
            if let Key::Char(c) = press.code {
                if c == 'c' {
                    self.input.clear();
                    self.accepted = String::new();
                    return (true, None);
                }
            }
        }
        let exit = self.key_handler(press.code, now, scorer);
        (exit, None)
    }

    /// Brings the selection into view. Gives whether the view has moved.
    pub fn scroll(&mut self, resized: bool) -> (moved: bool)
        requires
            old(self).wf_unscrolled(),
            resized ==> old(self).wf(),
        ensures
            final(self).wf(),
            final(self).history == old(self).history,
            final(self).input == old(self).input,
            final(self).matches == old(self).matches,
            final(self).selection == old(self).selection,
            final(self).menu_mode == old(self).menu_mode,
            final(self).rank == old(self).rank,
            final(self).anywhere == old(self).anywhere,
            final(self).same_screen(old(self)),
            final(self).offset as int == old(self).offset_after(resized),
            moved == (final(self).offset != old(self).offset),
    {
        let before = self.offset;
        let rows: Option<u16> = match line_range(RESULT_LINE, self.height, self.settings.bottom) {
            Some(area) => Some(
                if area.0 <= area.1 {
                    area.1 - area.0
                } else {
                    area.0 - area.1
                },
            ),
            None => None,
        };
        if resized {
            if let Some(r) = rows {
                let r = r as usize;
                if self.selection - self.offset > r {
                    self.offset = self.selection - r;
                }
            }
        } else if self.offset > self.selection {
            self.offset = self.selection;
        } else if let Some(r) = rows {
            if self.selection - self.offset == r as usize + 1 {
                self.offset = self.offset + 1;
            }
        }
        self.offset != before
    }

    /// The first visible match after the screen has scrolled.
    pub open spec fn offset_after(&self, resized: bool) -> int {
        match result_rows(self.height, self.settings.bottom) {
            Some(rows) => if resized {
                offset_after_resize(self.offset as int, self.selection as int, rows)
            } else {
                offset_after_move(self.offset as int, self.selection as int, rows)
            },
            None => if !resized && self.offset == self.selection + 1 {
                self.selection as int
            } else {
                self.offset as int
            },
        }
    }

    /// Opens the screen: builds the context of the store and searches for
    /// the text of the prompt.
    pub fn start<S: Scorer>(&mut self, now: i64, scorer: &S)
        requires
            old(self).wf(),
            now >= 0,
        ensures
            final(self).wf(),
            final(self).is_reset(),
            final(self).same_screen(old(self)),
            final(self).input == old(self).input,
            final(self).rank == old(self).rank,
            final(self).anywhere == old(self).anywhere,
            final(self).menu_mode == old(self).menu_mode,
            final(self).history.commands == old(self).history.commands,
            final(self).history.selected_commands == old(self).history.selected_commands,
            unranked(final(self).history.context()) == unranked(
                context_rows(
                    old(self).history.rows(),
                    old(self).settings.dir@,
                    old(self).anywhere,
                    now as int,
                    0,
                ),
            ),
            ranked_by(final(self).history.contextual_commands@, scorer),
    {
        self.build_cache_table(now, scorer);
        self.refresh_matches(true);
    }

    /// What is to be drawn anew after a key: everything if the text of the
    /// prompt, the order, the directory filter, the mode or the view has
    /// changed; the two rows if only the selection has; else the cursor.
    pub open spec fn redraw_after(&self, before: &Interface) -> Redraw {
        if self.input.command@ != before.input.command@ || self.menu_mode != before.menu_mode
            || self.rank != before.rank || self.anywhere != before.anywhere || self.offset
            != before.offset {
            Redraw::Full
        } else if self.selection != before.selection {
            Redraw::Rows(before.selection)
        } else {
            Redraw::Prompt
        }
    }

    /// Takes one event of the terminal.
    ///
    /// A key does what `is_press_of` says; unless it closes the screen, the
    /// screen then scrolls so that the selection is visible. A new size is
    /// taken over: the prompt is cut to the room that it has now, and the
    /// view is set anew. Anything else changes nothing.
    pub fn handle<S: Scorer>(&mut self, event: Event, now: i64, scorer: &S) -> (outcome: Outcome)
        requires
            old(self).wf(),
            now >= 0,
        ensures
            final(self).wf(),
            match event {
                Event::Key(press) => exists|pressed: Interface|
                    {
                        &&& #[trigger] pressed.is_press_of(
                            old(self),
                            press,
                            now as int,
                            scorer,
                            outcome.exit,
                            outcome.forget,
                        )
                        &&& pressed.wf_unscrolled()
                        &&& final(self).is_scroll_of(&pressed, outcome.exit)
                        &&& outcome.redraw == final(self).redraw_after(old(self))
                    },
                Event::Resize(w, h) => {
                    &&& !outcome.exit
                    &&& outcome.forget is None
                    &&& outcome.redraw is Full
                    &&& final(self).width == w
                    &&& final(self).height == h
                    &&& final(self).input.is_resize_of(&old(self).input, input_width_spec(w))
                    &&& final(self).offset as int == offset_after_resized(
                        old(self).offset as int,
                        old(self).selection as int,
                        result_rows(h, old(self).settings.bottom),
                    )
                    &&& final(self).history == old(self).history
                    &&& final(self).settings == old(self).settings
                    &&& final(self).matches == old(self).matches
                    &&& final(self).selection == old(self).selection
                    &&& final(self).menu_mode == old(self).menu_mode
                    &&& final(self).rank == old(self).rank
                    &&& final(self).anywhere == old(self).anywhere
                    &&& final(self).accepted == old(self).accepted
                },
                Event::Other => {
                    &&& !outcome.exit
                    &&& outcome.forget is None
                    &&& outcome.redraw is Prompt
                    &&& *final(self) == *old(self)
                },
            },
    {
        match event {
            Event::Key(press) => {
                let text = self.input.command.clone();
                let menu = self.menu_mode;
                let rank = self.rank;
                let anywhere = self.anywhere;
                let selection = self.selection;
                let offset = self.offset;
                let (exit, forget) = self.key_code_handler(press, now, scorer);
                let ghost pressed = *self;
                if exit {
                    if self.offset > self.selection {
                        self.offset = self.selection;
                    }
                } else {
                    self.scroll(false);
                }
                let redraw = if !(self.input.command == text) || self.menu_mode != menu || self.rank
                    != rank || self.anywhere != anywhere || self.offset != offset {
                    Redraw::Full
                } else if self.selection != selection {
                    Redraw::Rows(selection)
                } else {
                    Redraw::Prompt
                };
                let outcome = Outcome { exit, redraw, forget };
                proof {
                    assert(pressed.wf_unscrolled());
                    assert(self.is_scroll_of(&pressed, outcome.exit));
                    assert(outcome.redraw == self.redraw_after(old(self)));
                    assert(pressed.is_press_of(
                        old(self),
                        press,
                        now as int,
                        scorer,
                        outcome.exit,
                        outcome.forget,
                    ));
                }
                outcome
            },
            Event::Resize(w, h) => {
                self.width = w;
                self.height = h;
                self.input.update_cap(input_width(w));
                self.scroll(true);
                Outcome { exit: false, redraw: Redraw::Full, forget: None }
            },
            Event::Other => Outcome { exit: false, redraw: Redraw::Prompt, forget: None },
        }
    }

    /// `self` is what `pressed` becomes when the screen scrolls after a key;
    /// a screen that closes does not scroll.
    pub open spec fn is_scroll_of(&self, pressed: &Interface, exit: bool) -> bool {
        &&& self.history == pressed.history
        &&& self.input == pressed.input
        &&& self.matches == pressed.matches
        &&& self.selection == pressed.selection
        &&& self.menu_mode == pressed.menu_mode
        &&& self.rank == pressed.rank
        &&& self.anywhere == pressed.anywhere
        &&& self.same_screen(pressed)
        &&& self.offset as int == if exit {
            least(pressed.offset as int, pressed.selection as int)
        } else {
            pressed.offset_after(false)
        }
    }

    /// Closes the screen: notes in the store that the accepted command was
    /// given out, without the mark at its end, and gives it with the mark.
    /// Nothing was accepted if it holds nothing but white space.
    pub fn finish(&mut self) -> (given: Option<String>)
        ensures
            given is Some <==> has_ink(old(self).accepted@),
            given matches Some(text) ==> {
                &&& text@ == old(self).accepted@
                &&& final(self).history.selections() == old(self).history.selections().push(
                    crate::history::SelectedView {
                        cmd: without_mark(text@),
                        session_id: old(self).settings.sid@,
                        dir: old(self).settings.dir@,
                    },
                )
                &&& final(self).history.commands == old(self).history.commands
                &&& final(self).history.contextual_commands
                    == old(self).history.contextual_commands
            },
            given is None ==> final(self).history == old(self).history,
            final(self).settings == old(self).settings,
            final(self).input == old(self).input,
            final(self).same_list(old(self)),
            final(self).accepted == old(self).accepted,
    {
        let chars = chars_of(self.accepted.as_str());
        let white = white_marks(&chars);
        let ink = any_clear(&white);
        proof {
            if ink {
                let i = choose|i: int| 0 <= i < white@.len() && !#[trigger] white@[i];
                assert(!is_white_space(chars@[i]));
            } else {
                assert forall|i: int| 0 <= i < chars@.len() implies is_white_space(
                    #[trigger] chars@[i],
                ) by {
                    assert(white@[i]);
                }
            }
        }
        if ink {
            let n = chars.len();
            let marked = n > 0 && (chars[n - 1] == '\n' || chars[n - 1] == '\t');
            let command = if marked {
                string_between(&chars, 0, n - 1)
            } else {
                self.accepted.clone()
            };
            proof {
                if marked {
                    assert(chars@.subrange(0, n - 1) =~= chars@.drop_last());
                }
            }
            self.history.record_selected_from_ui(
                command.as_str(),
                self.settings.sid.as_str(),
                self.settings.dir.as_str(),
            );
            Some(self.accepted.clone())
        } else {
            None
        }
    }
}

/// The accepted command without the mark at its end: the line feed or the
/// tab that tells the shell what to do with it.
pub open spec fn without_mark(text: Seq<char>) -> Seq<char> {
    if text.len() > 0 && (text.last() == '\n' || text.last() == '\t') {
        text.drop_last()
    } else {
        text
    }
}

/// The room of the prompt as the editor counts it.
pub open spec fn input_width_spec(w: u16) -> u16 {
    input_room(w) as u16
}

/// The first visible match after the screen was resized, if it shows
/// results.
pub open spec fn offset_after_resized(offset: int, selection: int, rows: Option<int>) -> int {
    match rows {
        Some(r) => offset_after_resize(offset, selection, r),
        None => offset,
    }
}

/// Where a match is drawn.
#[derive(Clone, Copy, Debug, PartialEq, Eq, Structural)]
pub struct RowPlace {
    /// Index of the match.
    pub index: usize,
    /// The line of the screen.
    pub line: u16,
    /// The match is the selected one.
    pub selected: bool,
}

/// A place as plain values.
pub open spec fn place_view(place: RowPlace) -> (int, int, bool) {
    (place.index as int, place.line as int, place.selected)
}

/// The places as plain values.
pub open spec fn places_view(places: Seq<RowPlace>) -> Seq<(int, int, bool)> {
    Seq::new(places.len(), |i: int| place_view(places[i]))
}

/// Is the match drawn: is it visible, and does the redrawing reach it?
pub open spec fn is_drawn(index: int, offset: int, rows: int, selection: int, redraw: Redraw) -> bool {
    &&& offset <= index <= offset + rows
    &&& match redraw {
        Redraw::Full => true,
        Redraw::Rows(previous) => index == previous || index == selection,
        Redraw::Prompt => false,
    }
}

/// The places of the matches `0..upto` that are drawn, in their order.
pub open spec fn places_upto(
    upto: int,
    offset: int,
    selection: int,
    redraw: Redraw,
    area: (u16, u16),
    bottom: bool,
) -> Seq<(int, int, bool)>
    decreases upto,
{
    if upto <= 0 {
        Seq::empty()
    } else {
        let before = places_upto(upto - 1, offset, selection, redraw, area, bottom);
        let index = upto - 1;
        if is_drawn(index, offset, rows_of(area), selection, redraw) {
            before.push(
                (
                    index,
                    if bottom {
                        area.0 - (index - offset)
                    } else {
                        area.0 + (index - offset)
                    },
                    index == selection,
                ),
            )
        } else {
            before
        }
    }
}

/// Where the cursor of the prompt stands on a screen of this size: three
/// columns behind the start of the prompt line for the sign in front of the
/// text, and on the next line for every full width that the text fills.
/// Nowhere if the screen has no columns or is too low for the prompt, or if
/// the place is beyond what a screen can have.
pub open spec fn prompt_place(cursor: int, width: u16, height: u16, bottom: bool) -> Option<
    (u16, u16),
> {
    match line_range_spec(PROMPT_LINE, height, bottom) {
        Some(area) => if width > 0 && cursor + 3 <= u16::MAX && area.0 + (cursor + 3) / (
        width as int) <= u16::MAX {
            Some((((cursor + 3) % (width as int)) as u16, (area.0 + (cursor + 3) / (width as int)) as u16))
        } else {
            None
        },
        None => None,
    }
}

impl Interface {
    /// The matches that are to be drawn, each with its line. None are drawn
    /// on a screen that is too low for results.
    pub fn results(&self, redraw: Redraw) -> (places: Vec<RowPlace>)
        ensures
            places_view(places@) == match line_range_spec(
                RESULT_LINE,
                self.height,
                self.settings.bottom,
            ) {
                Some(area) => places_upto(
                    self.matches@.len() as int,
                    self.offset as int,
                    self.selection as int,
                    redraw,
                    area,
                    self.settings.bottom,
                ),
                None => Seq::empty(),
            },
    {
        let mut places: Vec<RowPlace> = Vec::new();
        let bottom = self.settings.bottom;
        let area = match line_range(RESULT_LINE, self.height, bottom) {
            Some(area) => area,
            None => {
                proof {
                    assert(places_view(places@) =~= Seq::<(int, int, bool)>::empty());
                }
                return places;
            },
        };
        let rows: usize = if area.0 <= area.1 {
            (area.1 - area.0) as usize
        } else {
            (area.0 - area.1) as usize
        };
        let mut index: usize = 0;
        proof {
            assert(places_view(places@) =~= places_upto(
                0,
                self.offset as int,
                self.selection as int,
                redraw,
                area,
                bottom,
            ));
        }
        while index < self.matches.len()
            invariant
                index <= self.matches.len(),
                rows == rows_of(area),
                bottom == self.settings.bottom,
                Some(area) == line_range_spec(RESULT_LINE, self.height, bottom),
                places_view(places@) == places_upto(
                    index as int,
                    self.offset as int,
                    self.selection as int,
                    redraw,
                    area,
                    bottom,
                ),
            decreases self.matches.len() - index,
        {
            let visible = index >= self.offset && index - self.offset <= rows;
            let reached = match redraw {
                Redraw::Full => true,
                Redraw::Rows(previous) => index == previous || index == self.selection,
                Redraw::Prompt => false,
            };
            if visible && reached {
                let k = (index - self.offset) as u16;
                let line = command_line_index(area, k, bottom);
                let ghost before = places_view(places@);
                places.push(RowPlace { index, line, selected: index == self.selection });
                proof {
                    assert(places_view(places@) =~= before.push(
                        (index as int, line as int, index == self.selection),
                    ));
                }
            }
            index += 1;
        }
        places
    }

    /// Where the cursor of the prompt stands, if it stands on the screen.
    pub fn prompt(&self) -> (place: Option<(u16, u16)>)
        ensures
            place == prompt_place(
                self.input.cursor as int,
                self.width,
                self.height,
                self.settings.bottom,
            ),
    {
        let area = match line_range(PROMPT_LINE, self.height, self.settings.bottom) {
            Some(area) => area,
            None => {
                return None;
            },
        };
        if self.width == 0 || self.input.cursor > 0xffff - 3 {
            return None;
        }
        let column = self.input.cursor as u16 + 3;
        if column / self.width > 0xffff - area.0 {
            return None;
        }
        Some(trans_position(self.width, (column, area.0)))
    }

    /// The line of the menu bar and its text, cut to the width of the
    /// screen. None on a screen that is too low for it.
    pub fn menubar(&self) -> (bar: Option<(u16, String)>)
        ensures
            match line_range_spec(MENU_LINE, self.height, self.settings.bottom) {
                Some(area) => bar matches Some(found) && found.0 == area.0 && encode_utf8(found.1@)
                    == cut_bytes(
                    encode_utf8(menu_text(self.menu_mode, self.rank, self.anywhere)),
                    menu_room(self.width),
                ),
                None => bar is None,
            },
    {
        match line_range(MENU_LINE, self.height, self.settings.bottom) {
            Some(area) => {
                let text = self.menu_mode.text(self.rank, self.anywhere);
                Some((area.0, cut_to_width(text.as_str(), self.width)))
            },
            None => None,
        }
    }
}

/// The bytes that a line of the screen has room for: one column stays free.
pub open spec fn menu_room(width: u16) -> int {
    if width >= 1 {
        width - 1
    } else {
        0
    }
}

/// The last place at or before `at` where a character of the text begins.
pub open spec fn boundary_at_or_before(bytes: Seq<u8>, at: int) -> int
    decreases at,
{
    if at <= 0 {
        0
    } else if is_char_boundary(bytes, at) {
        at
    } else {
        boundary_at_or_before(bytes, at - 1)
    }
}

/// The bytes of a text that is cut to `room` bytes: the text itself if it is
/// no longer; else what of it fits in three bytes less, cut where a
/// character ends, and three dots behind it.
pub open spec fn cut_bytes(bytes: Seq<u8>, room: int) -> Seq<u8> {
    if bytes.len() <= room {
        bytes
    } else {
        bytes.take(
            boundary_at_or_before(
                bytes,
                if room >= 3 {
                    room - 3
                } else {
                    0
                },
            ),
        ) + encode_utf8("..."@)
    }
}

/// The text cut to the width of the screen.
pub fn cut_to_width(text: &str, width: u16) -> (out: String)
    ensures
        encode_utf8(out@) == cut_bytes(encode_utf8(text@), menu_room(width)),
{
    broadcast use vstd::utf8::encode_utf8_valid_utf8;
    broadcast use vstd::utf8::is_char_boundary_start_end_of_seq;

    let ghost bytes = encode_utf8(text@);
    let len = text.as_bytes().len();
    let room: usize = if width >= 1 {
        (width - 1) as usize
    } else {
        0
    };
    proof {
        assert(text.spec_bytes() == bytes);
    }
    if len <= room {
        return text.to_owned();
    }
    let start: usize = if room >= 3 {
        room - 3
    } else {
        0
    };
    let mut at: usize = start;
    while at > 0 && !text.is_char_boundary(at)
        invariant
            at <= start < len,
            bytes == text.spec_bytes(),
            boundary_at_or_before(bytes, start as int) == boundary_at_or_before(bytes, at as int),
        decreases at,
    {
        at -= 1;
    }
    proof {
        assert(is_char_boundary(bytes, at as int));
    }
    let (head, _) = text.split_at(at);
    let mut out = head.to_owned();
    out.append("...");
    proof {
        lemma_encode_concat(head@, "..."@);
        assert(head.spec_bytes() == encode_utf8(head@));
        assert(bytes.subrange(0, at as int) =~= bytes.take(at as int));
    }
    out
}

/// The columns that a result leaves free for the number in front of the
/// command and the time behind it.
pub const MARGIN: u16 = 14;

/// The clusters that a command may fill on a screen of this width.
pub open spec fn command_room(width: u16) -> int {
    if width >= MARGIN {
        width - MARGIN
    } else {
        0
    }
}

/// The text of a match as it is drawn: cut to the room that the screen has,
/// and split into the stretches that hold the pattern and those between
/// them. Without a pattern nothing is marked.
pub fn format_command_text(command: &Command, target: &str, width: u16) -> (drawn: (
    String,
    Vec<Span>,
))
    ensures
        drawn.0@ == pushed(Seq::empty(), 0, command_room(width), command.cmd@).0,
        spans_view(drawn.1@) == spans_from(
            encode_utf8(drawn.0@).len() as int,
            if target@.len() == 0 {
                Seq::empty()
            } else {
                crate::text::bounds_of(command.match_bounds@)
            },
            0,
            0,
        ),
{
    let room = if width >= MARGIN {
        width - MARGIN
    } else {
        0
    };
    let out = FixedLengthGraphemeString::new(command.cmd.as_str(), room);
    let text = out.string.as_str();
    let len = text.as_bytes().len();
    proof {
        assert(text.spec_bytes() == encode_utf8(text@));
    }
    let spans = if target.is_empty() {
        let none: Vec<(usize, usize)> = Vec::new();
        proof {
            assert(crate::text::bounds_of(none@) =~= Seq::<(int, int)>::empty());
        }
        highlight_spans(len, &none)
    } else {
        highlight_spans(len, &command.match_bounds)
    };
    (out.string, spans)
}

} // verus!
