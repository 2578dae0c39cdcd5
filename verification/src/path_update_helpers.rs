//! Reading a `mv` command line: which directory it moved, and where to.

use crate::history::{moved, unique, History, StoreError};
use crate::segmentation::{clusters_of, grapheme_indices, table_view, texts};
use crate::text::{begins_with, chars_of, starts_with, strings_view};
use vstd::prelude::*;
use vstd::string::*;

verus! {

/// Where the reader of a command line stands.
pub struct Words {
    pub in_double_quote: bool,
    pub in_single_quote: bool,
    pub escaped: bool,
    /// The word that is being read.
    pub buffer: Seq<char>,
    /// The words that were read.
    pub result: Seq<Seq<char>>,
}

/// The reader before it has read anything.
pub open spec fn start() -> Words {
    Words {
        in_double_quote: false,
        in_single_quote: false,
        escaped: false,
        buffer: Seq::empty(),
        result: Seq::empty(),
    }
}

/// The words with the word in the buffer closed, if it is not empty.
pub open spec fn closed(w: Words) -> Seq<Seq<char>> {
    if w.buffer.len() > 0 {
        w.result.push(w.buffer)
    } else {
        w.result
    }
}

/// The reader after one more cluster.
///
/// A backslash marks the next cluster as escaped. A quote opens or closes a
/// quoted word unless it is escaped or stands inside quotes of the other
/// kind; closing it closes the word. A space closes the word unless it is
/// quoted or escaped. Every other cluster belongs to the word.
pub open spec fn step(w: Words, g: Seq<char>) -> Words {
    if g == seq!['\\'] {
        Words { escaped: true, ..w }
    } else if g == seq!['"'] {
        if w.escaped {
            Words { escaped: false, buffer: w.buffer + g, ..w }
        } else if w.in_double_quote {
            Words { in_double_quote: false, buffer: Seq::empty(), result: closed(w), ..w }
        } else if !w.in_single_quote {
            Words { in_double_quote: true, ..w }
        } else {
            Words { buffer: w.buffer + g, ..w }
        }
    } else if g == seq!['\''] {
        if w.in_single_quote {
            Words {
                in_single_quote: false,
                escaped: false,
                buffer: Seq::empty(),
                result: closed(w),
                ..w
            }
        } else if !w.in_double_quote {
            Words { in_single_quote: true, escaped: false, ..w }
        } else {
            Words { escaped: false, buffer: w.buffer + g, ..w }
        }
    } else if g == seq![' '] {
        if w.in_double_quote || w.in_single_quote || w.escaped {
            Words { escaped: false, buffer: w.buffer + g, ..w }
        } else {
            Words { escaped: false, buffer: Seq::empty(), result: closed(w), ..w }
        }
    } else {
        Words { escaped: false, buffer: w.buffer + g, ..w }
    }
}

/// The reader after the clusters `clusters[..upto]`.
pub open spec fn read(clusters: Seq<Seq<char>>, upto: int) -> Words
    decreases upto,
{
    if upto <= 0 {
        start()
    } else {
        step(read(clusters, upto - 1), clusters[upto - 1])
    }
}

/// Does the word begin with a dash?
pub open spec fn is_option(word: Seq<char>) -> bool {
    word.len() > 0 && word[0] == '-'
}

/// The words `words[from..]` that do not begin with a dash.
pub open spec fn plain_words(words: Seq<Seq<char>>, from: int) -> Seq<Seq<char>>
    decreases words.len() - from,
{
    if from < 0 || from >= words.len() {
        Seq::empty()
    } else if is_option(words[from]) {
        plain_words(words, from + 1)
    } else {
        seq![words[from]] + plain_words(words, from + 1)
    }
}

/// The operands of a command line that is split into these clusters: its
/// words but the first, without those that begin with a dash.
pub open spec fn operands(clusters: Seq<Seq<char>>) -> Seq<Seq<char>> {
    plain_words(closed(read(clusters, clusters.len() as int)), 1)
}

/// Is the cluster this one character and nothing else?
fn is_char(s: &str, c: char) -> (r: bool)
    ensures
        r == (s@ == seq![c]),
{
    let r = s.unicode_len() == 1 && s.get_char(0) == c;
    proof {
        if r {
            assert(s@ =~= seq![c]);
        }
    }
    r
}

/// The operands of a command line that is split into the clusters of
/// `table`.
pub fn parse_mv_clusters(table: &Vec<(usize, String)>) -> (found: Vec<String>)
    ensures
        strings_view(found@) == operands(texts(table_view(table@))),
{
    let ghost clusters = texts(table_view(table@));
    let mut in_double_quote = false;
    let mut in_single_quote = false;
    let mut escaped = false;
    let mut buffer = String::new();
    let mut result: Vec<String> = Vec::new();
    let mut i: usize = 0;
    proof {
        assert(strings_view(result@) =~= start().result);
    }
    while i < table.len()
        invariant
            i <= table.len(),
            clusters == texts(table_view(table@)),
            read(clusters, i as int) == (Words {
                in_double_quote,
                in_single_quote,
                escaped,
                buffer: buffer@,
                result: strings_view(result@),
            }),
        decreases table.len() - i,
    {
        let grapheme = table[i].1.as_str();
        let ghost before = read(clusters, i as int);
        let ghost words = strings_view(result@);
        assert(clusters[i as int] == grapheme@);
        if is_char(grapheme, '\\') {
            escaped = true;
        } else if is_char(grapheme, '"') {
            if escaped {
                escaped = false;
                buffer.append(grapheme);
            } else if in_double_quote {
                in_double_quote = false;
                if !buffer.as_str().is_empty() {
                    result.push(buffer);
                    proof {
                        assert(strings_view(result@) =~= words.push(before.buffer));
                    }
                }
                buffer = String::new();
            } else if !in_single_quote {
                in_double_quote = true;
            } else {
                buffer.append(grapheme);
            }
        } else if is_char(grapheme, '\'') {
            if in_single_quote {
                in_single_quote = false;
                if !buffer.as_str().is_empty() {
                    result.push(buffer);
                    proof {
                        assert(strings_view(result@) =~= words.push(before.buffer));
                    }
                }
                buffer = String::new();
            } else if !in_double_quote {
                in_single_quote = true;
            } else {
                buffer.append(grapheme);
            }
            escaped = false;
        } else if is_char(grapheme, ' ') {
            if in_double_quote || in_single_quote || escaped {
                buffer.append(grapheme);
            } else {
                if !buffer.as_str().is_empty() {
                    result.push(buffer);
                    proof {
                        assert(strings_view(result@) =~= words.push(before.buffer));
                    }
                }
                buffer = String::new();
            }
            escaped = false;
        } else {
            buffer.append(grapheme);
            escaped = false;
        }
        i += 1;
    }
    let ghost last = read(clusters, table.len() as int);
    let ghost words = strings_view(result@);
    if !buffer.as_str().is_empty() {
        result.push(buffer);
        proof {
            assert(strings_view(result@) =~= words.push(last.buffer));
        }
    }
    let ghost all = strings_view(result@);
    assert(all == closed(last));
    let mut found: Vec<String> = Vec::new();
    let mut k: usize = result.len();
    proof {
        assert(strings_view(found@) =~= plain_words(all, k as int));
    }
    // From the last word to the second, so that each word found goes in
    // front of those found before it.
    while k > 1
        invariant
            k <= result.len(),
            result.len() >= 1 ==> k >= 1,
            all == strings_view(result@),
            strings_view(found@) == plain_words(all, k as int),
        decreases k,
    {
        k -= 1;
        let word = chars_of(result[k].as_str());
        if !(word.len() > 0 && word[0] == '-') {
            let ghost before = strings_view(found@);
            found.insert(0, result[k].clone());
            proof {
                assert(strings_view(found@) =~= seq![all[k as int]] + before);
            }
        }
    }
    proof {
        if result.len() == 0 {
            assert(plain_words(all, 1) =~= Seq::<Seq<char>>::empty());
        }
    }
    found
}

/// The operands of a `mv` command line: its words but the first, without
/// the options. Quotes group, a backslash escapes.
pub fn parse_mv_command(command: &str) -> (found: Vec<String>)
    ensures
        strings_view(found@) == operands(clusters_of(command@)),
{
    let table = grapheme_indices(command);
    parse_mv_clusters(&table)
}

/// The lower-case form of `text`, as `str::to_lowercase` gives it.
pub uninterp spec fn lowercase_of(text: Seq<char>) -> Seq<char>;

/// Calls `str::to_lowercase`. Believed of that call: what it gives depends
/// on the text alone.
#[verifier::external_body]
fn lowercase(s: &str) -> (lower: String)
    ensures
        lower@ == lowercase_of(s@),
{
    s.to_lowercase()
}

/// Does the text hold the character?
pub fn holds(text: &Vec<char>, c: char) -> (r: bool)
    ensures
        r == text@.contains(c),
{
    let mut i: usize = 0;
    while i < text.len()
        invariant
            i <= text.len(),
            forall|k: int| 0 <= k < i ==> text@[k] != c,
        decreases text.len() - i,
    {
        if text[i] == c {
            return true;
        }
        i += 1;
    }
    false
}

/// A command line that moves something and names it outright: its
/// lower-case form begins with `mv` and a space, and it holds no wildcard.
pub open spec fn is_move_line(lower: Seq<char>, command: Seq<char>) -> bool {
    begins_with(lower, "mv "@) && !command.contains('*') && !command.contains('?')
}

/// Is `command`, whose lower-case form is `lower`, a command line that
/// moves something and names it outright?
pub fn is_move_given(lower: &str, command: &str) -> (r: bool)
    ensures
        r == is_move_line(lower@, command@),
{
    let text = chars_of(command);
    starts_with(&chars_of(lower), &chars_of("mv ")) && !holds(&text, '*') && !holds(&text, '?')
}

/// Is `command` a command line that moves something and names it outright?
pub fn is_move(command: &str) -> (r: bool)
    ensures
        r == is_move_line(lowercase_of(command@), command@),
{
    let lower = lowercase(command);
    is_move_given(lower.as_str(), command)
}

/// What a command line moved, and where to, as far as the line tells: its
/// two operands, if it is a move with just two.
pub fn move_operands(command: &str) -> (found: Option<(String, String)>)
    ensures
        found is Some <==> is_move_line(lowercase_of(command@), command@) && operands(
            clusters_of(command@),
        ).len() == 2,
        found matches Some(pair) ==> pair.0@ == operands(clusters_of(command@))[0] && pair.1@
            == operands(clusters_of(command@))[1],
{
    if !is_move(command) {
        return None;
    }
    let mut parts = parse_mv_command(command);
    if parts.len() != 2 {
        return None;
    }
    let to = parts.remove(1);
    let from = parts.remove(0);
    Some((from, to))
}

/// What the directory that was moved is called in the place where it went.
pub enum Inside {
    /// The directory that was moved has no name of its own.
    Nameless,
    /// Its name is no text.
    Unreadable,
    /// The path of that name in the place where it went, and whether a
    /// directory is there.
    Named { path: String, is_dir: bool },
}

/// What the caller found on disk after a command line moved `from` to `to`.
pub struct MoveProbe {
    /// The full path of what was moved.
    pub from: String,
    /// The full path of where it went.
    pub to: String,
    /// A directory is at `from`.
    pub from_is_dir: bool,
    pub inside: Inside,
    /// A directory is at `to`.
    pub to_is_dir: bool,
}

/// The new name of the directory `from`, if the findings say that it was
/// moved: the path inside `to` if a directory is there, else `to` itself if
/// that is a directory.
pub open spec fn move_target_spec(probe: MoveProbe) -> Option<Seq<char>> {
    if !probe.from_is_dir {
        None
    } else {
        match probe.inside {
            Inside::Unreadable => None,
            Inside::Named { path, is_dir } => if is_dir {
                Some(path@)
            } else if probe.to_is_dir {
                Some(probe.to@)
            } else {
                None
            },
            Inside::Nameless => if probe.to_is_dir {
                Some(probe.to@)
            } else {
                None
            },
        }
    }
}

/// The new name of the directory that was moved, if the findings say that
/// one was.
pub fn move_target(probe: &MoveProbe) -> (target: Option<String>)
    ensures
        match target {
            Some(path) => move_target_spec(*probe) == Some(path@),
            None => move_target_spec(*probe) is None,
        },
{
    if !probe.from_is_dir {
        return None;
    }
    match &probe.inside {
        Inside::Unreadable => None,
        Inside::Named { path, is_dir } => {
            if *is_dir {
                Some(path.clone())
            } else if probe.to_is_dir {
                Some(probe.to.clone())
            } else {
                None
            }
        },
        Inside::Nameless => {
            if probe.to_is_dir {
                Some(probe.to.clone())
            } else {
                None
            }
        },
    }
}

impl History {
    /// Follows a directory that was moved: if the findings say that `from`
    /// went to a new place, the rows of `from` and of the directories under
    /// it are rewritten to that place. Gives whether the findings said so.
    pub fn possibly_update_paths(&mut self, probe: &MoveProbe) -> (done: Result<bool, StoreError>)
        requires
            old(self).wf(),
        ensures
            final(self).wf(),
            final(self).selected_commands == old(self).selected_commands,
            final(self).contextual_commands == old(self).contextual_commands,
            match move_target_spec(*probe) {
                Some(target) => {
                    &&& done is Ok <==> unique(moved(old(self).rows(), probe.from@, target))
                    &&& done is Ok ==> done == Ok::<bool, StoreError>(true) && final(self).rows()
                        == moved(old(self).rows(), probe.from@, target)
                    &&& done is Err ==> final(self).commands == old(self).commands
                },
                None => done == Ok::<bool, StoreError>(false) && final(self).commands == old(self).commands,
            },
    {
        match move_target(probe) {
            Some(target) => match self.update_paths(probe.from.as_str(), target.as_str()) {
                Ok(()) => Ok(true),
                Err(e) => Err(e),
            },
            None => Ok(false),
        }
    }
}

} // verus!
