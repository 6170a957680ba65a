//! Byte-at-a-time I/O capabilities: console-backed and string-backed
//! sources and sinks, behind a tagged dispatch the VM consumes.

use std::io::Write;
use vstd::prelude::*;

use crate::text::string_push;

verus! {

/// An I/O failure while reading from or writing to the console.
#[derive(Debug, Clone, Copy, PartialEq, Eq, Structural)]
pub struct IoError;

/// Relies on `std::io::Read::read_exact` on standard input: reads one
/// byte; `Ok(None)` at end of input (`read_exact` documents that it fails
/// with `ErrorKind::UnexpectedEof` when it cannot fill the buffer);
/// `Err` on any other I/O failure.
#[verifier::external_body]
fn stdin_read_byte() -> Result<Option<u8>, IoError> {
    let mut one_byte = [0u8];
    match std::io::Read::read_exact(&mut std::io::stdin(), &mut one_byte) {
        Ok(_) => Ok(Some(one_byte[0])),
        Err(e) if e.kind() == std::io::ErrorKind::UnexpectedEof => Ok(None),
        Err(_) => Err(IoError),
    }
}

/// Relies on the `write!` macro on standard output: writes the one character.
#[verifier::external_body]
fn stdout_write_char(c: char) {
    let mut out = std::io::stdout();
    let _ = write!(out, "{}", c);
}

/// Relies on `std::io::Write::flush` on standard output.
#[verifier::external_body]
fn stdout_flush() {
    let _ = std::io::Write::flush(&mut std::io::stdout());
}

/// How a console byte reaches the tape: a newline is delivered as NUL,
/// every other byte passes through as its character.
pub open spec fn spec_console_translate(b: u8) -> char {
    if b == 10 {
        '\0'
    } else {
        b as char
    }
}

/// Translate one byte read from the console.
pub fn console_translate(b: u8) -> (c: char)
    ensures
        c == spec_console_translate(b),
{
    if b == 10 {
        '\0'
    } else {
        b as char
    }
}

/// Console input: reads standard input one byte at a time, translating
/// newlines to NUL, optionally printing a prompt first.
pub struct StdinConsole {
    prompt: Option<String>,
}

impl StdinConsole {
    /// The prompt printed before each read, when one was given.
    pub closed spec fn spec_prompt(&self) -> Option<Seq<char>> {
        match self.prompt {
            Some(p) => Some(p@),
            None => None,
        }
    }

    pub fn new(prompt: Option<String>) -> (r: Self)
        ensures
            r.spec_prompt() == (match prompt {
                Some(p) => Some(p@),
                None => None::<Seq<char>>,
            }),
    {
        StdinConsole { prompt }
    }

    /// Read one translated byte; `Ok(None)` at end of input, `Err` on an
    /// I/O failure.
    pub fn read(&mut self) -> (r: Result<Option<char>, IoError>)
        ensures
            *final(self) == *old(self),
            r is Ok && r->Ok_0 is Some ==> exists|b: u8| r->Ok_0->0 == spec_console_translate(b),
    {
        if let Some(p) = &self.prompt {
            stdout_write_char('\n');
            let prompt_len = p.unicode_len();
            let mut i: usize = 0;
            while i < prompt_len
                invariant
                    prompt_len == p@.len(),
                decreases prompt_len - i,
            {
                stdout_write_char(p.get_char(i));
                i += 1;
            }
            stdout_flush();
        }
        match stdin_read_byte() {
            Ok(Some(b)) => Ok(Some(console_translate(b))),
            Ok(None) => Ok(None),
            Err(e) => Err(e),
        }
    }
}

/// Console output: echoes every character to standard output, flushing each
/// time, and keeps a copy of everything written.
pub struct StdoutConsole {
    output: Vec<char>,
}

impl View for StdoutConsole {
    type V = Seq<char>;

    closed spec fn view(&self) -> Seq<char> {
        self.output@
    }
}

impl StdoutConsole {
    pub fn new() -> (r: Self)
        ensures
            r@ == Seq::<char>::empty(),
    {
        StdoutConsole { output: Vec::new() }
    }

    pub fn write(&mut self, value: char)
        ensures
            final(self)@ == old(self)@.push(value),
    {
        self.output.push(value);
        stdout_write_char(value);
        stdout_flush();
    }

    /// Everything written so far.
    pub fn to_string(&self) -> (r: String)
        ensures
            r@ == self@,
    {
        chars_to_string(&self.output)
    }
}

/// String-backed input: hands the characters of a fixed text out one by
/// one, untranslated, and reports end of input after the last.
pub struct StdinString {
    chars: Vec<char>,
    pos: usize,
}

impl View for StdinString {
    type V = Seq<char>;

    /// The characters not yet read.
    closed spec fn view(&self) -> Seq<char> {
        if self.pos <= self.chars@.len() {
            self.chars@.skip(self.pos as int)
        } else {
            Seq::empty()
        }
    }
}

impl StdinString {
    pub fn new(value: &str) -> (r: Self)
        ensures
            r@ == value@,
    {
        let value_len = value.unicode_len();
        let mut chars: Vec<char> = Vec::new();
        let mut i: usize = 0;
        while i < value_len
            invariant
                i <= value_len,
                value_len == value@.len(),
                chars@ == value@.take(i as int),
            decreases value_len - i,
        {
            chars.push(value.get_char(i));
            proof {
                assert(chars@ =~= value@.take(i + 1));
            }
            i += 1;
        }
        proof {
            assert(value@.take(value_len as int) =~= value@);
        }
        let r = StdinString { chars, pos: 0 };
        proof {
            assert(r@ =~= value@);
        }
        r
    }

    /// Read the next character; `None` once the text is exhausted.
    pub fn read(&mut self) -> (r: Result<Option<char>, IoError>)
        ensures
            r is Ok,
            old(self)@.len() == 0 ==> r == Ok::<_, IoError>(None::<char>) && final(self)@ == old(
                self,
            )@,
            old(self)@.len() > 0 ==> r == Ok::<_, IoError>(Some(old(self)@[0])) && final(self)@
                == old(self)@.skip(1),
    {
        if self.pos < self.chars.len() {
            let c = self.chars[self.pos];
            self.pos = self.pos + 1;
            proof {
                assert(final(self)@ =~= old(self)@.skip(1));
            }
            Ok(Some(c))
        } else {
            Ok(None)
        }
    }
}

/// String-backed output: keeps everything written, with no echo.
pub struct StdoutString {
    output: Vec<char>,
}

impl View for StdoutString {
    type V = Seq<char>;

    closed spec fn view(&self) -> Seq<char> {
        self.output@
    }
}

impl StdoutString {
    pub fn new() -> (r: Self)
        ensures
            r@ == Seq::<char>::empty(),
    {
        StdoutString { output: Vec::new() }
    }

    pub fn write(&mut self, value: char)
        ensures
            final(self)@ == old(self)@.push(value),
    {
        self.output.push(value);
    }

    /// Everything written so far.
    pub fn to_string(&self) -> (r: String)
        ensures
            r@ == self@,
    {
        chars_to_string(&self.output)
    }
}

/// An input capability: the console, or a fixed text.
pub enum StdinCap {
    Console(StdinConsole),
    Text(StdinString),
}

impl StdinCap {
    /// Whether this input is deterministic (string-backed).
    pub open spec fn is_text(self) -> bool {
        self is Text
    }

    /// The characters a string-backed input still holds.
    pub open spec fn text_view(self) -> Seq<char> {
        self->Text_0@
    }

    /// The prompt of a console-backed input.
    pub open spec fn console_prompt(self) -> Option<Seq<char>> {
        self->Console_0.spec_prompt()
    }

    /// Read one character. A string-backed input is exact: it hands out its
    /// next character or reports end of input. A console read that succeeds
    /// delivers the newline-translated form of some byte.
    pub fn read(&mut self) -> (r: Result<Option<char>, IoError>)
        ensures
            final(self).is_text() == old(self).is_text(),
            old(self).is_text() ==> {
                &&& r is Ok
                &&& old(self).text_view().len() == 0 ==> r == Ok::<_, IoError>(None::<char>)
                    && final(self).text_view() == old(self).text_view()
                &&& old(self).text_view().len() > 0 ==> r == Ok::<_, IoError>(
                    Some(old(self).text_view()[0]),
                ) && final(self).text_view() == old(self).text_view().skip(1)
            },
            !old(self).is_text() ==> *final(self) == *old(self) && (r is Ok && r->Ok_0 is Some
                ==> exists|b: u8| r->Ok_0->0 == spec_console_translate(b)),
    {
        match self {
            StdinCap::Console(stdin) => stdin.read(),
            StdinCap::Text(stdin) => stdin.read(),
        }
    }
}

/// An output capability: the console, or an in-memory buffer.
pub enum StdoutCap {
    Console(StdoutConsole),
    Text(StdoutString),
}

impl View for StdoutCap {
    type V = Seq<char>;

    /// Everything written so far.
    open spec fn view(&self) -> Seq<char> {
        match self {
            StdoutCap::Console(out) => out@,
            StdoutCap::Text(out) => out@,
        }
    }
}

impl StdoutCap {
    pub fn write(&mut self, value: char)
        ensures
            final(self)@ == old(self)@.push(value),
            *final(self) is Console <==> *old(self) is Console,
    {
        match self {
            StdoutCap::Console(out) => out.write(value),
            StdoutCap::Text(out) => out.write(value),
        }
    }

    /// Everything written so far.
    pub fn to_string(&self) -> (r: String)
        ensures
            r@ == self@,
    {
        match self {
            StdoutCap::Console(out) => out.to_string(),
            StdoutCap::Text(out) => out.to_string(),
        }
    }
}

/// Collect a character buffer into a `String`.
fn chars_to_string(chars: &Vec<char>) -> (r: String)
    ensures
        r@ == chars@,
{
    let mut out = String::new();
    let mut i: usize = 0;
    while i < chars.len()
        invariant
            i <= chars@.len(),
            out@ == chars@.take(i as int),
        decreases chars@.len() - i,
    {
        string_push(&mut out, chars[i]);
        proof {
            assert(out@ =~= chars@.take(i + 1));
        }
        i += 1;
    }
    proof {
        assert(chars@.take(chars@.len() as int) =~= chars@);
    }
    out
}

} // verus!
