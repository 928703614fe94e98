//! The scanner that the parsers share: a position in a string, and the
//! reading of single characters and of runs of characters of one class.

use vstd::prelude::*;
use crate::dom::{is_space, is_whitespace};

verus! {

/// The input is not of the grammar.
#[derive(Clone, Copy, Debug, PartialEq, Eq)]
pub enum ParseError {
    Malformed,
}

/// The classes of characters that the parser reads runs of.
#[derive(Clone, Copy, Debug)]
pub enum CharClass {
    /// White space.
    Space,
    /// Letters and digits of ASCII.
    Name,
    /// Anything but `<`.
    Text,
    /// Anything but the given character.
    Until(char),
    /// Letters and digits of ASCII, `-` and `_`.
    Identifier,
    /// Digits and `.`.
    Number,
}

pub open spec fn is_name_char(c: char) -> bool {
    ('a' <= c && c <= 'z') || ('A' <= c && c <= 'Z') || ('0' <= c && c <= '9')
}

pub open spec fn is_identifier_char(c: char) -> bool {
    is_name_char(c) || c == '-' || c == '_'
}

pub open spec fn is_digit(c: char) -> bool {
    '0' <= c && c <= '9'
}

/// Whether the character belongs to the class.
pub open spec fn accepts(class: CharClass, c: char) -> bool {
    match class {
        CharClass::Space => is_space(c),
        CharClass::Name => is_name_char(c),
        CharClass::Text => c != '<',
        CharClass::Until(stop) => c != stop,
        CharClass::Identifier => is_identifier_char(c),
        CharClass::Number => is_digit(c) || c == '.',
    }
}

/// The end of the longest run of characters of the class that begins at
/// `pos`.
pub open spec fn run_end(input: Seq<char>, pos: int, class: CharClass) -> int
    decreases input.len() - pos,
{
    if 0 <= pos < input.len() && accepts(class, input[pos]) {
        run_end(input, pos + 1, class)
    } else {
        pos
    }
}

/// Whether the characters of `prefix` stand in `input` at `pos`.
pub open spec fn has_prefix_at(input: Seq<char>, pos: int, prefix: Seq<char>) -> bool {
    0 <= pos && pos + prefix.len() <= input.len() && input.subrange(pos, pos + prefix.len())
        == prefix
}

/// A run ends at or after its start, and within the input.
pub proof fn lemma_run_end_bounds(input: Seq<char>, pos: int, class: CharClass)
    ensures
        pos <= run_end(input, pos, class),
        0 <= pos <= input.len() ==> run_end(input, pos, class) <= input.len(),
        0 <= pos < input.len() && accepts(class, input[pos]) ==> pos < run_end(input, pos, class),
        0 <= run_end(input, pos, class) < input.len() ==> !accepts(
            class,
            input[run_end(input, pos, class)],
        ),
    decreases input.len() - pos,
{
    if 0 <= pos < input.len() && accepts(class, input[pos]) {
        lemma_run_end_bounds(input, pos + 1, class);
    }
}

impl CharClass {
    /// Whether the character belongs to the class.
    pub fn holds(&self, c: char) -> (r: bool)
        ensures
            r == accepts(*self, c),
    {
        match self {
            CharClass::Space => is_whitespace(c),
            CharClass::Name => ('a' <= c && c <= 'z') || ('A' <= c && c <= 'Z') || ('0' <= c && c
                <= '9'),
            CharClass::Text => c != '<',
            CharClass::Until(stop) => c != *stop,
            CharClass::Identifier => ('a' <= c && c <= 'z') || ('A' <= c && c <= 'Z') || ('0' <= c
                && c <= '9') || c == '-' || c == '_',
            CharClass::Number => ('0' <= c && c <= '9') || c == '.',
        }
    }
}

/// A parser at a position of its input, counted in characters.
pub struct Parser {
    pub pos: usize,
    pub input: String,
}

impl Parser {
    /// Whether all the input has been read.
    pub fn eof(&self) -> (r: bool)
        ensures
            r == (self.pos >= self.input@.len()),
    {
        self.pos >= self.input.as_str().unicode_len()
    }

    /// The character at the position.
    pub fn next_char(&self) -> (c: char)
        requires
            self.pos < self.input@.len(),
        ensures
            c == self.input@[self.pos as int],
    {
        self.input.as_str().get_char(self.pos)
    }

    /// Whether the characters of `s` stand at the position.
    pub fn starts_with(&self, s: &str) -> (r: bool)
        ensures
            r == has_prefix_at(self.input@, self.pos as int, s@),
    {
        let n: usize = s.unicode_len();
        let len: usize = self.input.as_str().unicode_len();
        if self.pos > len || n > len - self.pos {
            return false;
        }
        let mut j: usize = 0;
        while j < n
            invariant
                n == s@.len(),
                len == self.input@.len(),
                self.pos + n <= len,
                j <= n,
                forall|k: int| 0 <= k < j ==> self.input@[self.pos + k] == s@[k],
            decreases n - j,
        {
            if self.input.as_str().get_char(self.pos + j) != s.get_char(j) {
                assert(self.input@.subrange(self.pos as int, self.pos + n)[j as int] != s@[j as int]);
                return false;
            }
            j += 1;
        }
        assert(self.input@.subrange(self.pos as int, self.pos + n) =~= s@);
        true
    }

    /// Reads one character.
    pub fn consume_char(&mut self) -> (c: char)
        requires
            old(self).pos < old(self).input@.len(),
        ensures
            final(self).input == old(self).input,
            final(self).pos == old(self).pos + 1,
            c == old(self).input@[old(self).pos as int],
    {
        let c: char = self.input.as_str().get_char(self.pos);
        // The length bounds the position, so the step cannot overflow.
        let len: usize = self.input.as_str().unicode_len();
        self.pos = self.pos + 1;
        c
    }

    /// Reads the character `c`, which has to stand at the position.
    pub fn expect(&mut self, c: char) -> (r: Result<(), ParseError>)
        ensures
            final(self).input == old(self).input,
            match r {
                Ok(()) => old(self).pos < old(self).input@.len() && old(self).input@[old(self).pos as int] == c && final(self).pos == old(self).pos + 1,
                Err(_) => final(self).pos == old(self).pos && !(old(self).pos < old(self).input@.len() && old(self).input@[old(self).pos as int] == c),
            },
    {
        if self.eof() || self.next_char() != c {
            return Err(ParseError::Malformed);
        }
        self.consume_char();
        Ok(())
    }

    /// Reads the longest run of characters of the class.
    pub fn consume_while(&mut self, class: CharClass) -> (r: String)
        ensures
            final(self).input == old(self).input,
            final(self).pos == run_end(old(self).input@, old(self).pos as int, class),
            final(self).pos >= old(self).pos,
            old(self).pos <= old(self).input@.len() ==> final(self).pos <= old(self).input@.len()
                && r@ == old(self).input@.subrange(old(self).pos as int, final(self).pos as int),
    {
        let start: usize = self.pos;
        let len: usize = self.input.as_str().unicode_len();
        while self.pos < len && class.holds(self.input.as_str().get_char(self.pos))
            invariant
                self.input == old(self).input,
                len == self.input@.len(),
                start == old(self).pos,
                start <= self.pos,
                start <= len ==> self.pos <= len,
                run_end(self.input@, start as int, class) == run_end(
                    self.input@,
                    self.pos as int,
                    class,
                ),
            decreases len - self.pos,
        {
            self.pos = self.pos + 1;
        }
        if start <= len {
            self.input.as_str().substring_char(start, self.pos).to_owned()
        } else {
            String::new()
        }
    }

    /// Skips whitespace.
    pub fn consume_whitespace(&mut self)
        ensures
            final(self).input == old(self).input,
            final(self).pos == run_end(old(self).input@, old(self).pos as int, CharClass::Space),
            final(self).pos >= old(self).pos,
            old(self).pos <= old(self).input@.len() ==> final(self).pos <= old(self).input@.len(),
    {
        self.consume_while(CharClass::Space);
    }
}

} // verus!
