//! A read position over a character sequence: the low-level reading tools
//! shared by the HTML and CSS parsers.
use vstd::prelude::*;

use crate::chars::{
    chars_of, is_ascii_alphabetic, is_ascii_alphanumeric, is_ascii_digit, is_ascii_hexdigit,
    is_whitespace, push_char, spec_is_ascii_alphabetic, spec_is_ascii_alphanumeric,
    spec_is_ascii_digit, spec_is_ascii_hexdigit, spec_is_whitespace,
};

verus! {

/// The character tests that the parsers read runs of characters with.
#[derive(Clone, Copy, PartialEq, Eq, Structural, Debug)]
pub enum CharClass {
    /// whitespace
    Whitespace,
    /// characters of an HTML tag or attribute name: ASCII alphanumerics and `-`
    HtmlName,
    /// characters of a CSS identifier: ASCII alphanumerics, `-` and `_`
    Identifier,
    /// anything but the given character
    Not(char),
    /// an unquoted attribute value: neither whitespace nor `>`
    Unquoted,
    /// inside a malformed declaration: neither `;` nor `}`
    NotDeclarationEnd,
    /// a keyword value: neither `;`, `}` nor a line feed
    KeywordChar,
    /// a number: ASCII digits, `.` and `-`
    NumberChar,
    /// a unit: ASCII letters and `%`
    UnitChar,
    /// an ASCII hexadecimal digit
    HexDigit,
}

pub open spec fn in_class(cls: CharClass, c: char) -> bool {
    match cls {
        CharClass::Whitespace => spec_is_whitespace(c),
        CharClass::HtmlName => spec_is_ascii_alphanumeric(c) || c == '-',
        CharClass::Identifier => spec_is_ascii_alphanumeric(c) || c == '-' || c == '_',
        CharClass::Not(x) => c != x,
        CharClass::Unquoted => !spec_is_whitespace(c) && c != '>',
        CharClass::NotDeclarationEnd => c != ';' && c != '}',
        CharClass::KeywordChar => c != ';' && c != '}' && c != '\n',
        CharClass::NumberChar => spec_is_ascii_digit(c) || c == '.' || c == '-',
        CharClass::UnitChar => spec_is_ascii_alphabetic(c) || c == '%',
        CharClass::HexDigit => spec_is_ascii_hexdigit(c),
    }
}

pub fn class_contains(cls: CharClass, c: char) -> (r: bool)
    ensures
        r == in_class(cls, c),
{
    match cls {
        CharClass::Whitespace => is_whitespace(c),
        CharClass::HtmlName => is_ascii_alphanumeric(c) || c == '-',
        CharClass::Identifier => is_ascii_alphanumeric(c) || c == '-' || c == '_',
        CharClass::Not(x) => c != x,
        CharClass::Unquoted => !is_whitespace(c) && c != '>',
        CharClass::NotDeclarationEnd => c != ';' && c != '}',
        CharClass::KeywordChar => c != ';' && c != '}' && c != '\n',
        CharClass::NumberChar => is_ascii_digit(c) || c == '.' || c == '-',
        CharClass::UnitChar => is_ascii_alphabetic(c) || c == '%',
        CharClass::HexDigit => is_ascii_hexdigit(c),
    }
}

/// Where a run of characters of class `cls` that starts at `p` ends.
pub open spec fn scan_end(s: Seq<char>, p: int, cls: CharClass) -> int
    decreases s.len() - p,
{
    if 0 <= p < s.len() && in_class(cls, s[p]) {
        scan_end(s, p + 1, cls)
    } else {
        p
    }
}

pub proof fn lemma_scan_end(s: Seq<char>, p: int, cls: CharClass)
    requires
        0 <= p <= s.len(),
    ensures
        p <= scan_end(s, p, cls) <= s.len(),
        forall|k: int| p <= k < scan_end(s, p, cls) ==> in_class(cls, #[trigger] s[k]),
        scan_end(s, p, cls) < s.len() ==> !in_class(cls, s[scan_end(s, p, cls)]),
    decreases s.len() - p,
{
    if p < s.len() && in_class(cls, s[p]) {
        lemma_scan_end(s, p + 1, cls);
    }
}

/// `t` occurs in `s` at position `p`.
pub open spec fn starts_at(s: Seq<char>, p: int, t: Seq<char>) -> bool {
    0 <= p && p + t.len() <= s.len() && s.subrange(p, p + t.len()) == t
}

/// The input and how far it has been read.
pub struct Cursor {
    pub pos: usize,
    pub input: Vec<char>,
}

impl Cursor {
    pub open spec fn wf(&self) -> bool {
        self.pos <= self.input@.len()
    }

    pub fn new(source: &str) -> (c: Cursor)
        ensures
            c.input@ == source@,
            c.pos == 0,
    {
        Cursor { pos: 0, input: chars_of(source) }
    }

    /// The character at the read position, without moving.
    pub fn next_char(&self) -> (c: char)
        requires
            self.pos < self.input@.len(),
        ensures
            c == self.input@[self.pos as int],
    {
        self.input[self.pos]
    }

    /// Whether `t` starts at the read position.
    pub fn starts_with(&self, t: &str) -> (b: bool)
        requires
            self.wf(),
        ensures
            b == starts_at(self.input@, self.pos as int, t@),
    {
        let lit = chars_of(t);
        let n = self.input.len();
        if lit.len() > n - self.pos {
            return false;
        }
        let mut i: usize = 0;
        while i < lit.len()
            invariant
                self.wf(),
                n == self.input@.len(),
                lit@ == t@,
                self.pos + lit@.len() <= self.input@.len(),
                i <= lit@.len(),
                forall|k: int| 0 <= k < i ==> self.input@[self.pos + k] == #[trigger] lit@[k],
            decreases lit@.len() - i,
        {
            if self.input[self.pos + i] != lit[i] {
                assert(self.input@.subrange(self.pos as int, self.pos + lit@.len())[i as int]
                    != lit@[i as int]);
                return false;
            }
            i = i + 1;
        }
        assert(self.input@.subrange(self.pos as int, self.pos + lit@.len()) =~= lit@);
        true
    }

    /// Whether the whole input has been read.
    pub fn eof(&self) -> (b: bool)
        ensures
            b == (self.pos >= self.input@.len()),
    {
        self.pos >= self.input.len()
    }

    /// Reads one character.
    pub fn consume_char(&mut self) -> (c: char)
        requires
            old(self).pos < old(self).input@.len(),
        ensures
            c == old(self).input@[old(self).pos as int],
            final(self).pos == old(self).pos + 1,
            final(self).input@ == old(self).input@,
    {
        let c = self.input[self.pos];
        let n = self.input.len();
        assert(self.pos < n);
        self.pos = self.pos + 1;
        c
    }

    /// Moves the read position `n` characters on.
    pub fn advance(&mut self, n: usize)
        requires
            old(self).pos + n <= old(self).input@.len(),
        ensures
            final(self).pos == old(self).pos + n,
            final(self).input@ == old(self).input@,
    {
        let len = self.input.len();
        assert(self.pos + n <= len);
        self.pos = self.pos + n;
    }

    /// Reads the run of characters of class `cls` at the read position.
    pub fn consume_while(&mut self, cls: CharClass) -> (r: String)
        requires
            old(self).wf(),
        ensures
            final(self).pos == scan_end(old(self).input@, old(self).pos as int, cls),
            r@ == old(self).input@.subrange(old(self).pos as int, final(self).pos as int),
            final(self).input@ == old(self).input@,
            final(self).wf(),
    {
        let ghost s = self.input@;
        let ghost p0 = self.pos as int;
        let mut result = String::new();
        while !self.eof() && class_contains(cls, self.next_char())
            invariant
                self.input@ == s,
                0 <= p0 <= self.pos <= s.len(),
                scan_end(s, self.pos as int, cls) == scan_end(s, p0, cls),
                result@ == s.subrange(p0, self.pos as int),
            decreases s.len() - self.pos,
        {
            let c = self.consume_char();
            push_char(&mut result, c);
            assert(result@ =~= s.subrange(p0, self.pos as int));
        }
        result
    }

    /// Skips whitespace.
    pub fn consume_whitespace(&mut self)
        requires
            old(self).wf(),
        ensures
            final(self).pos == scan_end(old(self).input@, old(self).pos as int, CharClass::Whitespace),
            final(self).input@ == old(self).input@,
            final(self).wf(),
    {
        self.consume_while(CharClass::Whitespace);
    }
}

} // verus!
