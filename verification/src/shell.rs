//! Reading the first word of a command line as bash would: the program that
//! the line names.

use vstd::prelude::*;
use vstd::string::*;
use vstd::utf8::{decode_utf8, valid_utf8};

verus! {

pub const SPACE: u8 = 0x20;

pub const TAB: u8 = 0x09;

pub const SINGLE_QUOTE: u8 = 0x27;

pub const DOUBLE_QUOTE: u8 = 0x22;

pub const BACKSLASH: u8 = 0x5c;

pub const NEWLINE: u8 = 0x0a;

pub const RETURN: u8 = 0x0d;

pub const LETTER_N: u8 = 0x6e;

pub const LETTER_T: u8 = 0x74;

pub const LETTER_R: u8 = 0x72;

/// What the reader is inside of.
#[derive(Clone, Copy, Debug, PartialEq, Eq, Structural)]
pub enum Mode {
    /// A bare word.
    Bare,
    /// A word quoted by this byte.
    Quote(u8),
    /// Behind a backslash.
    Escape,
}

/// A reader of the first word of a command line, byte by byte.
pub struct Bash {
    /// The modes that are open, the innermost last. The word ends when none
    /// is left.
    pub fns: Vec<Mode>,
    /// The bytes of the word so far.
    pub cmd: Vec<u8>,
}

/// The stack without its last entry.
pub open spec fn popped(stack: Seq<Mode>) -> Seq<Mode> {
    if stack.len() > 0 {
        stack.drop_last()
    } else {
        stack
    }
}

/// A bare word takes a byte: a blank ends it, a quote or a backslash opens
/// its mode, everything else belongs to the word.
pub open spec fn bare_fed(stack: Seq<Mode>, cmd: Seq<u8>, byte: u8) -> (Seq<Mode>, Seq<u8>) {
    if byte == SPACE || byte == TAB {
        (popped(stack), cmd)
    } else if byte == SINGLE_QUOTE || byte == DOUBLE_QUOTE {
        (stack.push(Mode::Quote(byte)), cmd)
    } else if byte == BACKSLASH {
        (stack.push(Mode::Escape), cmd)
    } else {
        (stack, cmd.push(byte))
    }
}

/// A quoted word takes a byte: its quote ends it, a backslash opens an
/// escape, everything else belongs to the word.
pub open spec fn quote_fed(stack: Seq<Mode>, cmd: Seq<u8>, quote: u8, byte: u8) -> (
    Seq<Mode>,
    Seq<u8>,
) {
    if byte == quote {
        (popped(stack), cmd)
    } else if byte == BACKSLASH {
        (stack.push(Mode::Escape), cmd)
    } else {
        (stack, cmd.push(byte))
    }
}

/// An escape takes a byte and ends. In a bare word `\n`, `\t` and `\r` give
/// the control character and every other byte itself; in a quoted word the
/// backslash stays in front of the byte.
pub open spec fn escape_fed(stack: Seq<Mode>, cmd: Seq<u8>, byte: u8) -> (Seq<Mode>, Seq<u8>) {
    if stack.len() == 2 {
        (
            popped(stack),
            cmd.push(
                if byte == LETTER_N {
                    NEWLINE
                } else if byte == LETTER_T {
                    TAB
                } else if byte == LETTER_R {
                    RETURN
                } else {
                    byte
                },
            ),
        )
    } else {
        (popped(stack), cmd.push(BACKSLASH).push(byte))
    }
}

/// The reader takes a byte in its innermost mode.
pub open spec fn fed(stack: Seq<Mode>, cmd: Seq<u8>, byte: u8) -> (Seq<Mode>, Seq<u8>) {
    if stack.len() == 0 {
        (stack, cmd)
    } else {
        match stack.last() {
            Mode::Bare => bare_fed(stack, cmd, byte),
            Mode::Quote(q) => quote_fed(stack, cmd, q, byte),
            Mode::Escape => escape_fed(stack, cmd, byte),
        }
    }
}

/// The reader after the bytes `line[..upto]`. Once no mode is open it takes
/// nothing more.
pub open spec fn scanned(stack: Seq<Mode>, cmd: Seq<u8>, line: Seq<u8>, upto: int) -> (
    Seq<Mode>,
    Seq<u8>,
)
    decreases upto,
{
    if upto <= 0 {
        (stack, cmd)
    } else {
        let before = scanned(stack, cmd, line, upto - 1);
        fed(before.0, before.1, line[upto - 1])
    }
}

/// Calls `String::from_utf8`, which gives the text that the bytes encode,
/// or an error if they are not UTF-8.
#[verifier::external_body]
fn string_from_utf8(bytes: Vec<u8>) -> (text: Option<String>)
    ensures
        text is Some <==> valid_utf8(bytes@),
        text matches Some(s) ==> s@ == decode_utf8(bytes@),
{
    String::from_utf8(bytes).ok()
}

impl Bash {
    /// A reader at the start of a line: inside a bare word, with no byte
    /// read.
    pub fn new() -> (shell: Bash)
        ensures
            shell.fns@ == seq![Mode::Bare],
            shell.cmd@ == Seq::<u8>::empty(),
    {
        let mut fns: Vec<Mode> = Vec::new();
        fns.push(Mode::Bare);
        Bash { fns, cmd: Vec::new() }
    }

    /// The bytes of the word so far.
    pub fn cmd_array(&self) -> (bytes: &Vec<u8>)
        ensures
            bytes@ == self.cmd@,
    {
        &self.cmd
    }

    /// Takes a byte in a bare word.
    pub fn bare(&mut self, byte: u8)
        ensures
            (final(self).fns@, final(self).cmd@) == bare_fed(old(self).fns@, old(self).cmd@, byte),
    {
        if byte == SPACE || byte == TAB {
            self.fns.pop();
        } else if byte == SINGLE_QUOTE {
            self.fns.push(Mode::Quote(SINGLE_QUOTE));
        } else if byte == DOUBLE_QUOTE {
            self.fns.push(Mode::Quote(DOUBLE_QUOTE));
        } else if byte == BACKSLASH {
            self.fns.push(Mode::Escape);
        } else {
            self.cmd.push(byte);
        }
    }

    /// Takes a byte in a word quoted by `I`.
    pub fn quote<const I: u8>(&mut self, byte: u8)
        ensures
            (final(self).fns@, final(self).cmd@) == quote_fed(
                old(self).fns@,
                old(self).cmd@,
                I,
                byte,
            ),
    {
        if byte == I {
            self.fns.pop();
        } else if byte == BACKSLASH {
            self.fns.push(Mode::Escape);
        } else {
            self.cmd.push(byte);
        }
    }

    /// Takes the byte behind a backslash.
    pub fn escape(&mut self, byte: u8)
        ensures
            (final(self).fns@, final(self).cmd@) == escape_fed(
                old(self).fns@,
                old(self).cmd@,
                byte,
            ),
    {
        let n = self.fns.len();
        if n == 2 {
            if byte == LETTER_N {
                self.cmd.push(NEWLINE);
            } else if byte == LETTER_T {
                self.cmd.push(TAB);
            } else if byte == LETTER_R {
                self.cmd.push(RETURN);
            } else {
                self.cmd.push(byte);
            }
        } else {
            self.cmd.push(BACKSLASH);
            self.cmd.push(byte);
        }
        self.fns.pop();
    }

    /// Takes a byte in the innermost mode.
    pub fn feed(&mut self, byte: u8)
        ensures
            (final(self).fns@, final(self).cmd@) == fed(old(self).fns@, old(self).cmd@, byte),
    {
        let n = self.fns.len();
        if n == 0 {
            return ;
        }
        match self.fns[n - 1] {
            Mode::Bare => self.bare(byte),
            Mode::Quote(q) => {
                if byte == q {
                    self.fns.pop();
                } else if byte == BACKSLASH {
                    self.fns.push(Mode::Escape);
                } else {
                    self.cmd.push(byte);
                }
            },
            Mode::Escape => self.escape(byte),
        }
    }

    /// Reads the bytes of `line` up to the end of its first word.
    pub fn scan(&mut self, line: &[u8])
        ensures
            (final(self).fns@, final(self).cmd@) == scanned(
                old(self).fns@,
                old(self).cmd@,
                line@,
                line@.len() as int,
            ),
    {
        let mut i: usize = 0;
        while i < line.len() && self.fns.len() > 0
            invariant
                i <= line.len(),
                (self.fns@, self.cmd@) == scanned(old(self).fns@, old(self).cmd@, line@, i as int),
            decreases line.len() - i,
        {
            self.feed(line[i]);
            i += 1;
        }
        proof {
            lemma_scanned_stays(old(self).fns@, old(self).cmd@, line@, i as int, line@.len() as int);
        }
    }

    /// The first word of `line`: the program that the line names. There is
    /// no word if the bytes that were read are not UTF-8.
    pub fn arg0_from_cmdline(&mut self, line: &str) -> (word: Option<String>)
        ensures
            ({
                let bytes = scanned(
                    old(self).fns@,
                    old(self).cmd@,
                    line.spec_bytes(),
                    line.spec_bytes().len() as int,
                ).1;
                &&& word is Some <==> valid_utf8(bytes)
                &&& word matches Some(s) ==> s@ == decode_utf8(bytes)
            }),
            final(self).cmd@ == Seq::<u8>::empty(),
    {
        self.scan(line.as_bytes());
        let mut bytes: Vec<u8> = Vec::new();
        std::mem::swap(&mut bytes, &mut self.cmd);
        string_from_utf8(bytes)
    }
}

/// A reader in which no mode is open stays as it is.
pub proof fn lemma_scanned_stays(stack: Seq<Mode>, cmd: Seq<u8>, line: Seq<u8>, from: int, upto: int)
    requires
        0 <= from <= upto,
        from == upto || scanned(stack, cmd, line, from).0.len() == 0,
    ensures
        scanned(stack, cmd, line, upto) == scanned(stack, cmd, line, from),
    decreases upto - from,
{
    if from < upto {
        lemma_scanned_stays(stack, cmd, line, from, upto - 1);
    }
}

} // verus!
