//! Error values and source locations.
//!
//! Every error has a mathematical view in which strings are sequences of
//! codepoints, and a message that is a function of that view.

use crate::text::{decimal, push_char, push_decimal};
use vstd::prelude::*;
use vstd::string::*;

verus! {

/// What went wrong while reading a single token.
#[derive(Debug, Clone, PartialEq)]
pub enum LexerErrorKind {
    /// A character that cannot start a token.
    UnexpectedChar(char),
    /// A `[` without its `]`.
    UnclosedCharacterClass,
    /// A backslash followed by something that is no escape.
    InvalidEscape(char),
    /// A `(` without its `)`.
    UnclosedGroup,
    /// A group name that is not an identifier.
    InvalidGroupName(String),
}

pub enum LexerErrorKindView {
    UnexpectedChar(char),
    UnclosedCharacterClass,
    InvalidEscape(char),
    UnclosedGroup,
    InvalidGroupName(Seq<char>),
}

impl View for LexerErrorKind {
    type V = LexerErrorKindView;

    open spec fn view(&self) -> LexerErrorKindView {
        match self {
            LexerErrorKind::UnexpectedChar(c) => LexerErrorKindView::UnexpectedChar(*c),
            LexerErrorKind::UnclosedCharacterClass => LexerErrorKindView::UnclosedCharacterClass,
            LexerErrorKind::InvalidEscape(c) => LexerErrorKindView::InvalidEscape(*c),
            LexerErrorKind::UnclosedGroup => LexerErrorKindView::UnclosedGroup,
            LexerErrorKind::InvalidGroupName(name) => LexerErrorKindView::InvalidGroupName(name@),
        }
    }
}

impl LexerErrorKindView {
    /// The message of this error.
    pub open spec fn text(self) -> Seq<char> {
        match self {
            LexerErrorKindView::UnexpectedChar(c) => "unexpected character '"@.push(c).push('\''),
            LexerErrorKindView::UnclosedCharacterClass => "unclosed character class"@,
            LexerErrorKindView::InvalidEscape(c) => "invalid escape sequence '\\"@.push(c).push(
                '\'',
            ),
            LexerErrorKindView::UnclosedGroup => "unclosed group"@,
            LexerErrorKindView::InvalidGroupName(name) => ("invalid group name '"@ + name).push(
                '\'',
            ),
        }
    }
}

impl LexerErrorKind {
    /// The message of this error.
    pub fn to_string(&self) -> (s: String)
        ensures
            s@ == self@.text(),
    {
        match self {
            LexerErrorKind::UnexpectedChar(c) => {
                let mut s = String::from_str("unexpected character '");
                push_char(&mut s, *c);
                push_char(&mut s, '\'');
                s
            },
            LexerErrorKind::UnclosedCharacterClass => String::from_str("unclosed character class"),
            LexerErrorKind::InvalidEscape(c) => {
                let mut s = String::from_str("invalid escape sequence '\\");
                push_char(&mut s, *c);
                push_char(&mut s, '\'');
                s
            },
            LexerErrorKind::UnclosedGroup => String::from_str("unclosed group"),
            LexerErrorKind::InvalidGroupName(name) => {
                let mut s = String::from_str("invalid group name '");
                s.append(name.as_str());
                push_char(&mut s, '\'');
                s
            },
        }
    }
}

/// What went wrong while building the syntax tree.
#[derive(Debug, Clone, PartialEq)]
pub enum ParseError {
    /// A token that the grammar does not allow at this place.
    UnexpectedToken {
        /// What the grammar allows here.
        expected: String,
        /// What stands here.
        found: String,
    },
    /// The pattern ends where an expression must follow.
    UnexpectedEof,
    /// Two groups carry the same name.
    DuplicateGroupName(String),
    /// A backreference names a group that does not exist.
    UndefinedBackreference(String),
    /// A counted quantifier whose bounds make no sense.
    InvalidQuantifier(String),
}

pub enum ParseErrorView {
    UnexpectedToken { expected: Seq<char>, found: Seq<char> },
    UnexpectedEof,
    DuplicateGroupName(Seq<char>),
    UndefinedBackreference(Seq<char>),
    InvalidQuantifier(Seq<char>),
}

impl View for ParseError {
    type V = ParseErrorView;

    open spec fn view(&self) -> ParseErrorView {
        match self {
            ParseError::UnexpectedToken { expected, found } => ParseErrorView::UnexpectedToken {
                expected: expected@,
                found: found@,
            },
            ParseError::UnexpectedEof => ParseErrorView::UnexpectedEof,
            ParseError::DuplicateGroupName(name) => ParseErrorView::DuplicateGroupName(name@),
            ParseError::UndefinedBackreference(name) => ParseErrorView::UndefinedBackreference(
                name@,
            ),
            ParseError::InvalidQuantifier(what) => ParseErrorView::InvalidQuantifier(what@),
        }
    }
}

impl ParseErrorView {
    /// The message of this error.
    pub open spec fn text(self) -> Seq<char> {
        match self {
            ParseErrorView::UnexpectedToken { expected, found } => "expected "@ + expected
                + ", found "@ + found,
            ParseErrorView::UnexpectedEof => "unexpected end of input"@,
            ParseErrorView::DuplicateGroupName(name) => ("duplicate group name '"@ + name).push(
                '\'',
            ),
            ParseErrorView::UndefinedBackreference(name) => ("undefined backreference '"@
                + name).push('\''),
            ParseErrorView::InvalidQuantifier(what) => "invalid quantifier: "@ + what,
        }
    }
}

impl ParseError {
    /// The message of this error.
    pub fn to_string(&self) -> (s: String)
        ensures
            s@ == self@.text(),
    {
        match self {
            ParseError::UnexpectedToken { expected, found } => {
                let mut s = String::from_str("expected ");
                s.append(expected.as_str());
                s.append(", found ");
                s.append(found.as_str());
                s
            },
            ParseError::UnexpectedEof => String::from_str("unexpected end of input"),
            ParseError::DuplicateGroupName(name) => {
                let mut s = String::from_str("duplicate group name '");
                s.append(name.as_str());
                push_char(&mut s, '\'');
                s
            },
            ParseError::UndefinedBackreference(name) => {
                let mut s = String::from_str("undefined backreference '");
                s.append(name.as_str());
                push_char(&mut s, '\'');
                s
            },
            ParseError::InvalidQuantifier(what) => {
                let mut s = String::from_str("invalid quantifier: ");
                s.append(what.as_str());
                s
            },
        }
    }
}

/// Any error of the engine, by the stage that raised it.
#[derive(Debug, Clone, PartialEq)]
pub enum RegexError {
    /// Raised while reading tokens.
    Lexer {
        /// Codepoint offset in the pattern at which the error was found.
        position: usize,
        /// What was wrong there.
        kind: LexerErrorKind,
    },
    /// Raised while building the syntax tree.
    Parse(ParseError),
    /// Raised while building the automaton.
    Compile(String),
    /// Raised while matching.
    Runtime(String),
}

pub enum RegexErrorView {
    Lexer { position: nat, kind: LexerErrorKindView },
    Parse(ParseErrorView),
    Compile(Seq<char>),
    Runtime(Seq<char>),
}

impl View for RegexError {
    type V = RegexErrorView;

    open spec fn view(&self) -> RegexErrorView {
        match self {
            RegexError::Lexer { position, kind } => RegexErrorView::Lexer {
                position: *position as nat,
                kind: kind@,
            },
            RegexError::Parse(e) => RegexErrorView::Parse(e@),
            RegexError::Compile(what) => RegexErrorView::Compile(what@),
            RegexError::Runtime(what) => RegexErrorView::Runtime(what@),
        }
    }
}

impl RegexErrorView {
    /// The message of this error.
    pub open spec fn text(self) -> Seq<char> {
        match self {
            RegexErrorView::Lexer { position, kind } => "lexer error at position "@ + decimal(
                position,
            ) + ": "@ + kind.text(),
            RegexErrorView::Parse(e) => "parse error: "@ + e.text(),
            RegexErrorView::Compile(what) => "compilation error: "@ + what,
            RegexErrorView::Runtime(what) => "runtime error: "@ + what,
        }
    }
}

impl RegexError {
    /// The message of this error.
    pub fn to_string(&self) -> (s: String)
        ensures
            s@ == self@.text(),
    {
        match self {
            RegexError::Lexer { position, kind } => {
                let mut s = String::from_str("lexer error at position ");
                push_decimal(&mut s, *position as u64);
                s.append(": ");
                let k = kind.to_string();
                s.append(k.as_str());
                s
            },
            RegexError::Parse(e) => {
                let mut s = String::from_str("parse error: ");
                let inner = e.to_string();
                s.append(inner.as_str());
                s
            },
            RegexError::Compile(what) => {
                let mut s = String::from_str("compilation error: ");
                s.append(what.as_str());
                s
            },
            RegexError::Runtime(what) => {
                let mut s = String::from_str("runtime error: ");
                s.append(what.as_str());
                s
            },
        }
    }
}

impl From<ParseError> for RegexError {
    fn from(e: ParseError) -> (r: RegexError) {
        RegexError::Parse(e)
    }
}

impl vstd::std_specs::convert::FromSpecImpl<ParseError> for RegexError {
    open spec fn obeys_from_spec() -> bool {
        true
    }

    open spec fn from_spec(e: ParseError) -> RegexError {
        RegexError::Parse(e)
    }
}

/// A half-open range of codepoint offsets in a pattern.
#[derive(Debug, Clone, Copy, PartialEq, Eq, Structural)]
pub struct Span {
    /// Start position (inclusive).
    pub start: usize,
    /// End position (exclusive).
    pub end: usize,
}

impl Span {
    /// The span from `start` to `end`.
    pub fn new(start: usize, end: usize) -> (s: Span)
        ensures
            s.start == start,
            s.end == end,
    {
        Span { start, end }
    }

    /// The span that holds the one position `pos`.
    pub fn single(pos: usize) -> (s: Span)
        requires
            pos < usize::MAX,
        ensures
            s.start == pos,
            s.end == pos + 1,
    {
        Span { start: pos, end: pos + 1 }
    }

    /// The number of positions in the span; zero if it ends before it starts.
    pub open spec fn length(self) -> nat {
        if self.end >= self.start {
            (self.end - self.start) as nat
        } else {
            0
        }
    }

    /// The number of positions in the span; zero if it ends before it starts.
    pub fn len(&self) -> (n: usize)
        ensures
            n == self.length(),
    {
        if self.end >= self.start {
            self.end - self.start
        } else {
            0
        }
    }

    /// Whether the span starts where it ends.
    pub fn is_empty(&self) -> (b: bool)
        ensures
            b == (self.start == self.end),
    {
        self.start == self.end
    }

    /// How the span reads in a message.
    pub open spec fn text(self) -> Seq<char> {
        "Span { start: "@ + decimal(self.start as nat) + ", end: "@ + decimal(self.end as nat)
            + " }"@
    }
}

impl Default for Span {
    fn default() -> (s: Span)
        ensures
            s.start == 0,
            s.end == 0,
    {
        Span { start: 0, end: 0 }
    }
}

/// An error together with the place in the pattern that it is about.
#[derive(Debug, Clone)]
pub struct SpannedError {
    /// The error.
    pub error: RegexError,
    /// The place in the pattern.
    pub span: Span,
}

impl SpannedError {
    /// The error `error` at the place `span`.
    pub fn new(error: RegexError, span: Span) -> (e: SpannedError)
        ensures
            e.error == error,
            e.span == span,
    {
        SpannedError { error, span }
    }

    /// The message of the error followed by its place.
    pub open spec fn text(self) -> Seq<char> {
        self.error@.text() + " at position "@ + self.span.text()
    }

    /// The message of the error followed by its place.
    pub fn to_string(&self) -> (s: String)
        ensures
            s@ == self.text(),
    {
        let mut s = self.error.to_string();
        s.append(" at position ");
        s.append("Span { start: ");
        push_decimal(&mut s, self.span.start as u64);
        s.append(", end: ");
        push_decimal(&mut s, self.span.end as u64);
        s.append(" }");
        s
    }
}

} // verus!
