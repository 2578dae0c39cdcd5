//! Reading the history file of the shell: one command to a line.

use crate::text::{
    chars_of, pieces, same_chars, split, strings_view, texts_view, trim, trimmed,
};
use vstd::prelude::*;
use vstd::string::*;

verus! {

/// A digit of ASCII.
pub open spec fn is_digit(c: char) -> bool {
    '0' <= c && c <= '9'
}

/// The characters `line[from..to]` are digits.
pub open spec fn all_digits(line: Seq<char>, from: int, to: int) -> bool {
    forall|i: int| from <= i < to ==> is_digit(#[trigger] line[i])
}

/// The line begins with the mark that zsh puts in front of a command: `#`
/// and ten digits, no more.
pub open spec fn is_timestamp(line: Seq<char>) -> bool {
    &&& line.len() >= 11
    &&& line[0] == '#'
    &&& all_digits(line, 1, 11)
    &&& !(line.len() > 11 && is_digit(line[11]))
}

/// The lines of a text: what stands between its line feeds.
pub open spec fn lines_of(text: Seq<char>) -> Seq<Seq<char>> {
    pieces(text, '\n')
}

/// Is the line a command: not empty, and no time mark?
pub open spec fn is_command(line: Seq<char>) -> bool {
    !is_timestamp(line) && line.len() > 0
}

/// The commands among `lines[..upto]`, each without the white space at its
/// ends.
pub open spec fn commands_among(lines: Seq<Seq<char>>, upto: int) -> Seq<Seq<char>>
    decreases upto,
{
    if upto <= 0 {
        Seq::empty()
    } else if is_command(lines[upto - 1]) {
        commands_among(lines, upto - 1).push(trimmed(lines[upto - 1]))
    } else {
        commands_among(lines, upto - 1)
    }
}

/// The commands that a history file holds.
pub open spec fn commands_of(text: Seq<char>) -> Seq<Seq<char>> {
    commands_among(lines_of(text), lines_of(text).len() as int)
}

/// The lines `lines[..upto]` but those that are `command`, each with a line
/// feed behind it.
pub open spec fn rewritten(lines: Seq<Seq<char>>, command: Seq<char>, upto: int) -> Seq<char>
    decreases upto,
{
    if upto <= 0 {
        Seq::empty()
    } else if lines[upto - 1] == command {
        rewritten(lines, command, upto - 1)
    } else {
        rewritten(lines, command, upto - 1) + lines[upto - 1] + seq!['\n']
    }
}

/// Does the line begin with `#` and ten digits, no more?
pub fn has_leading_timestamp(line: &str) -> (r: bool)
    ensures
        r == is_timestamp(line@),
{
    let chars = chars_of(line);
    leading_timestamp(&chars)
}

fn leading_timestamp(chars: &Vec<char>) -> (r: bool)
    ensures
        r == is_timestamp(chars@),
{
    if chars.len() < 11 || chars[0] != '#' {
        return false;
    }
    let mut i: usize = 1;
    while i < 11
        invariant
            1 <= i <= 11 <= chars.len(),
            all_digits(chars@, 1, i as int),
        decreases 11 - i,
    {
        if !(chars[i] >= '0' && chars[i] <= '9') {
            proof {
                assert(!is_digit(chars@[i as int]));
            }
            return false;
        }
        i += 1;
    }
    !(chars.len() > 11 && chars[11] >= '0' && chars[11] <= '9')
}

/// The lines of the text.
pub fn split_lines(text: &str) -> (lines: Vec<Vec<char>>)
    ensures
        texts_view(lines@) == lines_of(text@),
{
    split(&chars_of(text), '\n')
}

/// The commands that a history file holds: its lines but the empty ones and
/// the time marks, each without the white space at its ends.
pub fn full_history(contents: &str) -> (commands: Vec<String>)
    ensures
        strings_view(commands@) == commands_of(contents@),
{
    let lines = split_lines(contents);
    let ghost all = texts_view(lines@);
    let mut commands: Vec<String> = Vec::new();
    let mut i: usize = 0;
    proof {
        assert(strings_view(commands@) =~= commands_among(all, 0));
    }
    while i < lines.len()
        invariant
            i <= lines.len(),
            all == texts_view(lines@),
            strings_view(commands@) == commands_among(all, i as int),
        decreases lines.len() - i,
    {
        let line = &lines[i];
        if !leading_timestamp(line) && line.len() > 0 {
            let ghost before = strings_view(commands@);
            commands.push(trim(line));
            proof {
                assert(strings_view(commands@) =~= before.push(trimmed(all[i as int])));
            }
        }
        i += 1;
    }
    commands
}

/// The history file without `command`: the commands that it holds but
/// those that are `command`, one to a line. None if it holds no command at
/// all: the file is then left as it is.
pub fn delete_lines(contents: &str, command: &str) -> (out: Option<String>)
    ensures
        out is Some <==> commands_of(contents@).len() > 0,
        out matches Some(text) ==> text@ == rewritten(
            commands_of(contents@),
            command@,
            commands_of(contents@).len() as int,
        ),
{
    let commands = full_history(contents);
    if commands.len() == 0 {
        return None;
    }
    let ghost all = strings_view(commands@);
    let wanted = chars_of(command);
    let mut text = String::new();
    let mut i: usize = 0;
    while i < commands.len()
        invariant
            i <= commands.len(),
            all == strings_view(commands@),
            wanted@ == command@,
            text@ == rewritten(all, command@, i as int),
        decreases commands.len() - i,
    {
        let line = chars_of(commands[i].as_str());
        if !same_chars(&line, &wanted) {
            text.append(commands[i].as_str());
            text.append("\n");
            proof {
                reveal_strlit("\n");
                assert("\n"@ =~= seq!['\n']);
            }
        }
        i += 1;
    }
    Some(text)
}

} // verus!
