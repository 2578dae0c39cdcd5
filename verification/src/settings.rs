//! What one call of the tool is to do.

use crate::cli::{Cli, SubCommand};
use crate::text::{chars_of, stands_at, string_between, strings_view, trim, trimmed};
use vstd::prelude::*;
use vstd::string::*;

verus! {

#[derive(Clone, Copy, Debug, PartialEq, Eq, Structural)]
pub enum Mode {
    Add,
    Search,
    Init,
}

pub struct Settings {
    pub mode: Mode,
    pub sid: String,
    pub command: String,
    pub dir: String,
    /// How many results the search screen asks for.
    pub results: u16,
    pub exit_code: i32,
    pub lightmode: bool,
    pub bottom: bool,
}

/// The number of results that the search screen asks for.
pub const RESULTS: u16 = 40;

/// The words `words[..upto]` with one space between each two.
pub open spec fn joined(words: Seq<Seq<char>>, upto: int) -> Seq<char>
    decreases upto,
{
    if upto <= 0 {
        Seq::empty()
    } else if upto == 1 {
        words[0]
    } else {
        joined(words, upto - 1) + seq![' '] + words[upto - 1]
    }
}

/// The command that the words of a command line spell: the words with one
/// space between each two, without white space at the ends.
pub open spec fn command_of(words: Seq<String>) -> Seq<char> {
    trimmed(joined(strings_view(words), words.len() as int))
}

impl Default for Settings {
    fn default() -> (settings: Settings)
        ensures
            settings.mode is Add,
            settings.sid@ == Seq::<char>::empty(),
            settings.command@ == Seq::<char>::empty(),
            settings.dir@ == Seq::<char>::empty(),
            settings.results == RESULTS,
            settings.exit_code == 0,
            !settings.lightmode,
            !settings.bottom,
    {
        Settings {
            mode: Mode::Add,
            command: String::new(),
            sid: String::new(),
            dir: String::new(),
            results: RESULTS,
            exit_code: 0,
            lightmode: false,
            bottom: false,
        }
    }
}

/// The command that the words spell.
pub fn join_command(words: &Vec<String>) -> (command: String)
    ensures
        command@ == command_of(words@),
{
    let ghost all = strings_view(words@);
    let mut line: Vec<char> = Vec::new();
    let mut i: usize = 0;
    while i < words.len()
        invariant
            i <= words.len(),
            all == strings_view(words@),
            line@ == joined(all, i as int),
        decreases words.len() - i,
    {
        if i > 0 {
            line.push(' ');
        }
        let word = chars_of(words[i].as_str());
        let ghost head = line@;
        let mut k: usize = 0;
        while k < word.len()
            invariant
                k <= word.len(),
                line@ == head + word@.take(k as int),
            decreases word.len() - k,
        {
            line.push(word[k]);
            proof {
                assert(word@.take(k + 1) =~= word@.take(k as int).push(word@[k as int]));
                assert(line@ =~= head + word@.take(k + 1));
            }
            k += 1;
        }
        proof {
            assert(word@.take(word.len() as int) =~= word@);
            if i == 0 {
                assert(head + word@ =~= word@);
            }
        }
        i += 1;
    }
    trim(&line)
}

impl Settings {
    /// The settings that a parsed command line asks for.
    ///
    /// A call that records or searches names its directory.
    pub fn parse_args(cli: Cli) -> (settings: Settings)
        requires
            cli.command matches SubCommand::Add { directory, .. } ==> directory is Some,
            cli.command matches SubCommand::Search { directory, .. } ==> directory is Some,
        ensures
            settings.results == RESULTS,
            settings.sid@ == (match cli.sid {
                Some(sid) => sid@,
                None => Seq::<char>::empty(),
            }),
            match cli.command {
                SubCommand::Add { command, exit, directory } => {
                    &&& settings.mode is Add
                    &&& settings.exit_code == exit
                    &&& settings.dir@ == directory->0@
                    &&& settings.command@ == command_of(command@)
                    &&& !settings.bottom
                    &&& !settings.lightmode
                },
                SubCommand::Search { command, directory, bottom, light } => {
                    &&& settings.mode is Search
                    &&& settings.exit_code == 0
                    &&& settings.dir@ == directory->0@
                    &&& settings.command@ == command_of(command@)
                    &&& settings.bottom == bottom
                    &&& settings.lightmode == light
                },
                SubCommand::Init { bottom, light } => {
                    &&& settings.mode is Init
                    &&& settings.exit_code == 0
                    &&& settings.dir@ == Seq::<char>::empty()
                    &&& settings.command@ == Seq::<char>::empty()
                    &&& settings.bottom == bottom
                    &&& settings.lightmode == light
                },
            },
    {
        let mut settings = Settings::default();
        settings.sid = match cli.sid {
            Some(sid) => sid,
            None => String::new(),
        };
        match cli.command {
            SubCommand::Add { command, exit, directory } => {
                settings.mode = Mode::Add;
                settings.exit_code = exit;
                settings.dir = directory.unwrap();
                settings.command = join_command(&command);
            },
            SubCommand::Search { command, directory, bottom, light } => {
                settings.mode = Mode::Search;
                settings.dir = directory.unwrap();
                settings.command = join_command(&command);
                settings.bottom = bottom;
                settings.lightmode = light;
            },
            SubCommand::Init { bottom, light } => {
                settings.mode = Mode::Init;
                settings.bottom = bottom;
                settings.lightmode = light;
            },
        }
        settings
    }
}

/// The first place at or after `from` where `needle` stands in `text`.
pub open spec fn first_place(text: Seq<char>, needle: Seq<char>, from: int) -> Option<int>
    decreases text.len() - from,
{
    if from < 0 || from + needle.len() > text.len() {
        None
    } else if stands_at(text, needle, from) {
        Some(from)
    } else if from >= text.len() {
        None
    } else {
        first_place(text, needle, from + 1)
    }
}

/// The script without the first `flag` in it and the character behind it.
pub open spec fn without_flag(script: Seq<char>, flag: Seq<char>) -> Seq<char> {
    match first_place(script, flag, 0) {
        Some(at) => script.take(at) + script.skip(
            if at + flag.len() + 1 <= script.len() {
                at + flag.len() + 1
            } else {
                script.len() as int
            },
        ),
        None => script,
    }
}

/// The script that ties the tool into the shell, for these two settings:
/// the flag of a setting that is off is taken out of it.
pub open spec fn script_for(script: Seq<char>, bottom: bool, light: bool) -> Seq<char> {
    let first = if bottom {
        script
    } else {
        without_flag(script, "--bottom"@)
    };
    if light {
        first
    } else {
        without_flag(first, "--light"@)
    }
}

/// The characters without the first `flag` among them and the character
/// behind it.
pub fn strip_flag(script: Vec<char>, flag: &Vec<char>) -> (out: Vec<char>)
    ensures
        out@ == without_flag(script@, flag@),
{
    let n = script.len();
    let m = flag.len();
    if m > n {
        return script;
    }
    let mut at: usize = 0;
    while at <= n - m
        invariant
            n == script.len(),
            m == flag.len(),
            m <= n,
            at <= n,
            first_place(script@, flag@, 0) == first_place(script@, flag@, at as int),
        decreases n - at,
    {
        let mut k: usize = 0;
        while k < m && script[at + k] == flag[k]
            invariant
                n == script.len(),
                m == flag.len(),
                at + m <= n,
                k <= m,
                script@.subrange(at as int, at + k) == flag@.take(k as int),
            decreases m - k,
        {
            proof {
                assert(script@.subrange(at as int, at + k + 1) =~= script@.subrange(
                    at as int,
                    at + k,
                ).push(script@[at + k]));
                assert(flag@.take(k + 1) =~= flag@.take(k as int).push(flag@[k as int]));
            }
            k += 1;
        }
        if k == m {
            proof {
                assert(flag@.take(m as int) =~= flag@);
            }
            let rest: usize = if at + m < n {
                at + m + 1
            } else {
                n
            };
            let mut out: Vec<char> = Vec::new();
            let mut i: usize = 0;
            while i < at
                invariant
                    i <= at <= n == script.len(),
                    out@ == script@.take(i as int),
                decreases at - i,
            {
                out.push(script[i]);
                proof {
                    assert(script@.take(i + 1) =~= script@.take(i as int).push(script@[i as int]));
                }
                i += 1;
            }
            let mut j: usize = rest;
            proof {
                assert(script@.subrange(rest as int, rest as int) =~= Seq::<char>::empty());
                assert(out@ + Seq::<char>::empty() =~= out@);
            }
            while j < n
                invariant
                    at <= rest <= j <= n == script.len(),
                    out@ == script@.take(at as int) + script@.subrange(rest as int, j as int),
                decreases n - j,
            {
                out.push(script[j]);
                proof {
                    assert(script@.subrange(rest as int, j + 1) =~= script@.subrange(
                        rest as int,
                        j as int,
                    ).push(script@[j as int]));
                }
                j += 1;
            }
            proof {
                assert(script@.subrange(rest as int, n as int) =~= script@.skip(rest as int));
            }
            return out;
        }
        proof {
            assert(script@.subrange(at as int, at + m)[k as int] != flag@[k as int]);
        }
        at += 1;
    }
    script
}

/// The script that ties the tool into the shell, for these two settings.
pub fn init_script(script: &str, bottom: bool, light: bool) -> (out: String)
    ensures
        out@ == script_for(script@, bottom, light),
{
    let mut text = chars_of(script);
    if !bottom {
        text = strip_flag(text, &chars_of("--bottom"));
    }
    if !light {
        text = strip_flag(text, &chars_of("--light"));
    }
    let out = string_between(&text, 0, text.len());
    proof {
        assert(text@.subrange(0, text.len() as int) =~= text@);
    }
    out
}

} // verus!
