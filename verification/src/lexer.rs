//! The lexer: from the codepoints of a pattern to its tokens.
//!
//! [`token_at`] defines, for every pattern and every position in it, the
//! token that starts there and the position just behind it. The lexer computes
//! exactly that function.

use crate::text::{
    all_digits, char_is_digit, char_is_name_char, char_is_name_start, chars_of, decimal,
    decimal_value, digit_run, is_digit, is_name_char, is_name_start, is_word,
    lemma_digit_run_bound, lemma_name_run_bound, lemma_name_run_is, lemma_run_until_bound,
    name_run, parse_decimal, push_char, push_decimal, push_signed, run_until, signed_decimal,
    string_of,
};
use vstd::prelude::*;
use vstd::string::*;

verus! {

/// A token of a pattern.
#[derive(Debug, Clone, PartialEq)]
pub enum Token {
    /// `(`
    LeftParen,
    /// `)`
    RightParen,
    /// `[`
    LeftBracket,
    /// `]`
    RightBracket,
    /// `{`
    LeftBrace,
    /// `}`
    RightBrace,
    /// `:`
    Colon,
    /// `,`
    Comma,
    /// `|`
    Pipe,
    /// `^`
    Caret,
    /// `$`
    Dollar,
    /// `.`
    Dot,
    /// `*`
    Star,
    /// `*?`
    StarLazy,
    /// `+`
    Plus,
    /// `+?`
    PlusLazy,
    /// `?`
    Question,
    /// `(?:`
    NonCapturing,
    /// `(name:`, with the name
    NamedGroupStart(String),
    /// A backslash and a character that has no meaning of its own
    Escape(char),
    /// `\1`, `\2`, ...
    BackrefNumber(u32),
    /// `\g{-1}`, `\g{-2}`, ...: the numbered groups counted from the last one
    BackrefRelative(i32),
    /// `\g{name}`
    BackrefName(String),
    /// `\w`
    WordChar,
    /// `\W`
    NonWordChar,
    /// `\d`
    Digit,
    /// `\D`
    NonDigit,
    /// `\s`
    Whitespace,
    /// `\S`
    NonWhitespace,
    /// `\b`
    WordBoundary,
    /// `\B`
    NonWordBoundary,
    /// Any other character
    Literal(char),
    /// The end of the pattern
    Eof,
}

pub enum TokenView {
    LeftParen,
    RightParen,
    LeftBracket,
    RightBracket,
    LeftBrace,
    RightBrace,
    Colon,
    Comma,
    Pipe,
    Caret,
    Dollar,
    Dot,
    Star,
    StarLazy,
    Plus,
    PlusLazy,
    Question,
    NonCapturing,
    NamedGroupStart(Seq<char>),
    Escape(char),
    BackrefNumber(u32),
    BackrefRelative(i32),
    BackrefName(Seq<char>),
    WordChar,
    NonWordChar,
    Digit,
    NonDigit,
    Whitespace,
    NonWhitespace,
    WordBoundary,
    NonWordBoundary,
    Literal(char),
    Eof,
}

impl View for Token {
    type V = TokenView;

    open spec fn view(&self) -> TokenView {
        match self {
            Token::LeftParen => TokenView::LeftParen,
            Token::RightParen => TokenView::RightParen,
            Token::LeftBracket => TokenView::LeftBracket,
            Token::RightBracket => TokenView::RightBracket,
            Token::LeftBrace => TokenView::LeftBrace,
            Token::RightBrace => TokenView::RightBrace,
            Token::Colon => TokenView::Colon,
            Token::Comma => TokenView::Comma,
            Token::Pipe => TokenView::Pipe,
            Token::Caret => TokenView::Caret,
            Token::Dollar => TokenView::Dollar,
            Token::Dot => TokenView::Dot,
            Token::Star => TokenView::Star,
            Token::StarLazy => TokenView::StarLazy,
            Token::Plus => TokenView::Plus,
            Token::PlusLazy => TokenView::PlusLazy,
            Token::Question => TokenView::Question,
            Token::NonCapturing => TokenView::NonCapturing,
            Token::NamedGroupStart(name) => TokenView::NamedGroupStart(name@),
            Token::Escape(c) => TokenView::Escape(*c),
            Token::BackrefNumber(n) => TokenView::BackrefNumber(*n),
            Token::BackrefRelative(n) => TokenView::BackrefRelative(*n),
            Token::BackrefName(name) => TokenView::BackrefName(name@),
            Token::WordChar => TokenView::WordChar,
            Token::NonWordChar => TokenView::NonWordChar,
            Token::Digit => TokenView::Digit,
            Token::NonDigit => TokenView::NonDigit,
            Token::Whitespace => TokenView::Whitespace,
            Token::NonWhitespace => TokenView::NonWhitespace,
            Token::WordBoundary => TokenView::WordBoundary,
            Token::NonWordBoundary => TokenView::NonWordBoundary,
            Token::Literal(c) => TokenView::Literal(*c),
            Token::Eof => TokenView::Eof,
        }
    }
}

impl TokenView {
    /// How the token reads in a message.
    pub open spec fn text(self) -> Seq<char> {
        match self {
            TokenView::LeftParen => "`(`"@,
            TokenView::RightParen => "`)`"@,
            TokenView::LeftBracket => "`[`"@,
            TokenView::RightBracket => "`]`"@,
            TokenView::LeftBrace => "`{`"@,
            TokenView::RightBrace => "`}`"@,
            TokenView::Colon => "`:`"@,
            TokenView::Comma => "`,`"@,
            TokenView::Pipe => "`|`"@,
            TokenView::Caret => "`^`"@,
            TokenView::Dollar => "`$`"@,
            TokenView::Dot => "`.`"@,
            TokenView::Star => "`*`"@,
            TokenView::StarLazy => "`*?`"@,
            TokenView::Plus => "`+`"@,
            TokenView::PlusLazy => "`+?`"@,
            TokenView::Question => "`?`"@,
            TokenView::NonCapturing => "`?:`"@,
            TokenView::NamedGroupStart(name) => ("named group `"@ + name).push('`'),
            TokenView::Escape(c) => "escape `\\"@.push(c).push('`'),
            TokenView::BackrefNumber(n) => ("backref `\\"@ + decimal(n as nat)).push('`'),
            TokenView::BackrefRelative(n) => "relative backref `\\g{"@ + signed_decimal(n as int)
                + "}`"@,
            TokenView::BackrefName(name) => "backref `\\g{"@ + name + "}`"@,
            TokenView::WordChar => "shorthand `\\w`"@,
            TokenView::NonWordChar => "shorthand `\\W`"@,
            TokenView::Digit => "shorthand `\\d`"@,
            TokenView::NonDigit => "shorthand `\\D`"@,
            TokenView::Whitespace => "shorthand `\\s`"@,
            TokenView::NonWhitespace => "shorthand `\\S`"@,
            TokenView::WordBoundary => "boundary `\\b`"@,
            TokenView::NonWordBoundary => "boundary `\\B`"@,
            TokenView::Literal(c) => "literal `"@.push(c).push('`'),
            TokenView::Eof => "EOF"@,
        }
    }
}

impl Token {
    /// How the token reads in a message.
    pub fn to_string(&self) -> (s: String)
        ensures
            s@ == self@.text(),
    {
        match self {
            Token::LeftParen => String::from_str("`(`"),
            Token::RightParen => String::from_str("`)`"),
            Token::LeftBracket => String::from_str("`[`"),
            Token::RightBracket => String::from_str("`]`"),
            Token::LeftBrace => String::from_str("`{`"),
            Token::RightBrace => String::from_str("`}`"),
            Token::Colon => String::from_str("`:`"),
            Token::Comma => String::from_str("`,`"),
            Token::Pipe => String::from_str("`|`"),
            Token::Caret => String::from_str("`^`"),
            Token::Dollar => String::from_str("`$`"),
            Token::Dot => String::from_str("`.`"),
            Token::Star => String::from_str("`*`"),
            Token::StarLazy => String::from_str("`*?`"),
            Token::Plus => String::from_str("`+`"),
            Token::PlusLazy => String::from_str("`+?`"),
            Token::Question => String::from_str("`?`"),
            Token::NonCapturing => String::from_str("`?:`"),
            Token::NamedGroupStart(name) => {
                let mut s = String::from_str("named group `");
                s.append(name.as_str());
                push_char(&mut s, '`');
                s
            },
            Token::Escape(c) => {
                let mut s = String::from_str("escape `\\");
                push_char(&mut s, *c);
                push_char(&mut s, '`');
                s
            },
            Token::BackrefNumber(n) => {
                let mut s = String::from_str("backref `\\");
                push_decimal(&mut s, *n as u64);
                push_char(&mut s, '`');
                s
            },
            Token::BackrefRelative(n) => {
                let mut s = String::from_str("relative backref `\\g{");
                push_signed(&mut s, *n);
                s.append("}`");
                s
            },
            Token::BackrefName(name) => {
                let mut s = String::from_str("backref `\\g{");
                s.append(name.as_str());
                s.append("}`");
                s
            },
            Token::WordChar => String::from_str("shorthand `\\w`"),
            Token::NonWordChar => String::from_str("shorthand `\\W`"),
            Token::Digit => String::from_str("shorthand `\\d`"),
            Token::NonDigit => String::from_str("shorthand `\\D`"),
            Token::Whitespace => String::from_str("shorthand `\\s`"),
            Token::NonWhitespace => String::from_str("shorthand `\\S`"),
            Token::WordBoundary => String::from_str("boundary `\\b`"),
            Token::NonWordBoundary => String::from_str("boundary `\\B`"),
            Token::Literal(c) => {
                let mut s = String::from_str("literal `");
                push_char(&mut s, *c);
                push_char(&mut s, '`');
                s
            },
            Token::Eof => String::from_str("EOF"),
        }
    }
}

/// The views of the tokens of `v`, in order.
pub open spec fn token_views(v: Seq<Token>) -> Seq<TokenView> {
    v.map_values(|t: Token| t@)
}

/// The character of `s` at `pos`, if there is one.
pub open spec fn char_at(s: Seq<char>, pos: int) -> Option<char> {
    if 0 <= pos < s.len() {
        Some(s[pos])
    } else {
        None
    }
}

/// The largest number a numeric backreference can hold.
pub open spec fn backref_cap() -> nat {
    0xffff_ffff
}

/// The number that the digit run starting at `from` denotes, held at
/// [`backref_cap`] if it is larger.
pub open spec fn capped_number(s: Seq<char>, from: int) -> u32 {
    let v = decimal_value(s.subrange(from, from + digit_run(s, from)));
    if v <= backref_cap() {
        v as u32
    } else {
        0xffff_ffffu32
    }
}

/// `content` is a minus sign followed by digits that denote a number from 1
/// to 2147483647.
pub open spec fn is_relative(content: Seq<char>) -> bool {
    &&& content.len() >= 2
    &&& content[0] == '-'
    &&& all_digits(content.subrange(1, content.len() as int))
    &&& 1 <= decimal_value(content.subrange(1, content.len() as int)) <= 0x7fff_ffff
}

/// The token for `\g{content}`.
pub open spec fn braced_backref(content: Seq<char>) -> TokenView {
    if is_relative(content) {
        TokenView::BackrefRelative(
            (-(decimal_value(content.subrange(1, content.len() as int)) as int)) as i32,
        )
    } else {
        TokenView::BackrefName(content)
    }
}

/// The token that a backslash at `pos` starts, and the position behind it.
pub open spec fn escape_at(s: Seq<char>, pos: int) -> (TokenView, int) {
    match char_at(s, pos + 1) {
        None => (TokenView::Escape('\0'), pos + 1),
        Some(c) => {
            if c == 'g' {
                if char_at(s, pos + 2) == Some('{') {
                    let n = run_until(s, pos + 3, '}');
                    let content = s.subrange(pos + 3, pos + 3 + n);
                    let behind = if pos + 3 + n < s.len() {
                        pos + 3 + n + 1
                    } else {
                        pos + 3 + n
                    };
                    (braced_backref(content), behind)
                } else {
                    (TokenView::Escape('g'), pos + 2)
                }
            } else if c == 'w' {
                (TokenView::WordChar, pos + 2)
            } else if c == 'W' {
                (TokenView::NonWordChar, pos + 2)
            } else if c == 'd' {
                (TokenView::Digit, pos + 2)
            } else if c == 'D' {
                (TokenView::NonDigit, pos + 2)
            } else if c == 's' {
                (TokenView::Whitespace, pos + 2)
            } else if c == 'S' {
                (TokenView::NonWhitespace, pos + 2)
            } else if c == 'b' {
                (TokenView::WordBoundary, pos + 2)
            } else if c == 'B' {
                (TokenView::NonWordBoundary, pos + 2)
            } else if is_digit(c) {
                (TokenView::BackrefNumber(capped_number(s, pos + 1)), pos + 1 + digit_run(s, pos + 1))
            } else {
                (TokenView::Escape(c), pos + 2)
            }
        },
    }
}

/// The token that a `(` at `pos` starts, and the position behind it.
pub open spec fn paren_at(s: Seq<char>, pos: int) -> (TokenView, int) {
    match char_at(s, pos + 1) {
        Some(c) => {
            if c == '?' {
                if char_at(s, pos + 2) == Some(':') {
                    (TokenView::NonCapturing, pos + 3)
                } else {
                    (TokenView::LeftParen, pos + 1)
                }
            } else if is_name_start(c) {
                let n = name_run(s, pos + 1);
                if char_at(s, pos + 1 + n) == Some(':') {
                    (TokenView::NamedGroupStart(s.subrange(pos + 1, pos + 1 + n)), pos + 2 + n)
                } else {
                    (TokenView::LeftParen, pos + 1)
                }
            } else {
                (TokenView::LeftParen, pos + 1)
            }
        },
        None => (TokenView::LeftParen, pos + 1),
    }
}

/// The token of `s` that starts at `pos`, and the position behind it. Behind
/// the last character stands `Eof`, which takes no room.
pub open spec fn token_at(s: Seq<char>, pos: int) -> (TokenView, int) {
    match char_at(s, pos) {
        None => (TokenView::Eof, pos),
        Some(c) => {
            if c == '\\' {
                escape_at(s, pos)
            } else if c == '(' {
                paren_at(s, pos)
            } else if c == ')' {
                (TokenView::RightParen, pos + 1)
            } else if c == '[' {
                (TokenView::LeftBracket, pos + 1)
            } else if c == ']' {
                (TokenView::RightBracket, pos + 1)
            } else if c == '{' {
                (TokenView::LeftBrace, pos + 1)
            } else if c == '}' {
                (TokenView::RightBrace, pos + 1)
            } else if c == ':' {
                (TokenView::Colon, pos + 1)
            } else if c == ',' {
                (TokenView::Comma, pos + 1)
            } else if c == '|' {
                (TokenView::Pipe, pos + 1)
            } else if c == '^' {
                (TokenView::Caret, pos + 1)
            } else if c == '$' {
                (TokenView::Dollar, pos + 1)
            } else if c == '.' {
                (TokenView::Dot, pos + 1)
            } else if c == '*' {
                if char_at(s, pos + 1) == Some('?') {
                    (TokenView::StarLazy, pos + 2)
                } else {
                    (TokenView::Star, pos + 1)
                }
            } else if c == '+' {
                if char_at(s, pos + 1) == Some('?') {
                    (TokenView::PlusLazy, pos + 2)
                } else {
                    (TokenView::Plus, pos + 1)
                }
            } else if c == '?' {
                (TokenView::Question, pos + 1)
            } else {
                (TokenView::Literal(c), pos + 1)
            }
        },
    }
}

/// The tokens of `s` from `pos` on, up to and including the closing `Eof`.
pub open spec fn tokens_from(s: Seq<char>, pos: int) -> Seq<TokenView>
    decreases s.len() - pos,
{
    let (t, behind) = token_at(s, pos);
    if t is Eof || behind <= pos || pos < 0 || behind > s.len() {
        seq![t]
    } else {
        seq![t] + tokens_from(s, behind)
    }
}

/// The position of the first token from `pos` on that is a backslash with
/// nothing behind it: an escape that escapes nothing.
pub open spec fn dangling_escape(s: Seq<char>, pos: int) -> Option<int>
    decreases s.len() - pos,
{
    let (t, behind) = token_at(s, pos);
    if t is Eof || behind <= pos || pos < 0 || behind > s.len() {
        None
    } else if s[pos] == '\\' && pos + 1 == s.len() {
        Some(pos)
    } else {
        dangling_escape(s, behind)
    }
}

/// The tokens of the pattern `s`: what [`Lexer::tokenize`] returns for it.
pub open spec fn tokens_of(s: Seq<char>) -> Seq<TokenView> {
    tokens_from(s, 0)
}

/// A token that is not `Eof` takes room, and no token reaches past the end.
pub proof fn lemma_token_advances(s: Seq<char>, pos: int)
    requires
        0 <= pos <= s.len(),
    ensures
        pos <= token_at(s, pos).1 <= s.len(),
        token_at(s, pos).0 is Eof <==> pos == s.len(),
        pos < s.len() ==> pos < token_at(s, pos).1,
{
    if pos < s.len() {
        if s[pos] == '\\' {
            if pos + 1 < s.len() {
                lemma_digit_run_bound(s, pos + 1);
                if pos + 2 < s.len() {
                    lemma_run_until_bound(s, pos + 3, '}');
                }
            }
        } else if s[pos] == '(' {
            if pos + 1 < s.len() {
                lemma_name_run_bound(s, pos + 1);
            }
        }
    }
}

/// The token list ends in `Eof` and holds no other `Eof`.
pub proof fn lemma_tokens_end_in_eof(s: Seq<char>, pos: int)
    requires
        0 <= pos <= s.len(),
    ensures
        tokens_from(s, pos).len() >= 1,
        tokens_from(s, pos).last() is Eof,
        forall|i: int| 0 <= i < tokens_from(s, pos).len() - 1 ==> !(#[trigger] tokens_from(s, pos)[i] is Eof),
    decreases s.len() - pos,
{
    lemma_token_advances(s, pos);
    let (t, behind) = token_at(s, pos);
    if !(t is Eof) {
        lemma_tokens_end_in_eof(s, behind);
        let rest = tokens_from(s, behind);
        let all = tokens_from(s, pos);
        assert(all =~= seq![t] + rest);
        assert forall|i: int| 0 <= i < all.len() - 1 implies !(#[trigger] all[i] is Eof) by {
            if i > 0 {
                assert(all[i] == rest[i - 1]);
            }
        }
    }
}

/// A `(`, a name of ASCII letters, digits and underscores that does not
/// start with a digit, and a `:` are read as the opener of the group of
/// that name, whatever Unicode says of other characters.
pub proof fn lemma_named_opener(s: Seq<char>, pos: int, len: nat)
    requires
        0 <= pos,
        len >= 1,
        pos + 2 + len <= s.len(),
        s[pos] == '(',
        !is_digit(s[pos + 1]),
        forall|i: int| pos + 1 <= i < pos + 1 + len ==> is_word(#[trigger] s[i]),
        s[pos + 1 + len] == ':',
    ensures
        token_at(s, pos) == (
            TokenView::NamedGroupStart(s.subrange(pos + 1, pos + 1 + len)),
            pos + 2 + len,
        ),
{
    assert(is_word(s[pos + 1]));
    assert forall|i: int| pos + 1 <= i < pos + 1 + len implies is_name_char(#[trigger] s[i]) by {
        assert(is_word(s[i]));
    }
    lemma_name_run_is(s, pos + 1, len);
}

/// A lexer over the codepoints of one pattern.
pub struct Lexer {
    input: Vec<char>,
    position: usize,
    in_char_class: bool,
}

impl Lexer {
    /// The pattern that is being read.
    pub closed spec fn text(&self) -> Seq<char> {
        self.input@
    }

    /// The position of the next unread codepoint.
    pub closed spec fn offset(&self) -> int {
        self.position as int
    }

    /// The position never passes the end of the pattern.
    pub closed spec fn wf(&self) -> bool {
        self.position <= self.input@.len()
    }

    /// A lexer at the start of `input`.
    pub fn new(input: &str) -> (l: Lexer)
        ensures
            l.wf(),
            l.text() == input@,
            l.offset() == 0,
    {
        Lexer { input: chars_of(input), position: 0, in_char_class: false }
    }

    /// The codepoint at the current position, without reading it.
    pub fn peek(&self) -> (c: Option<char>)
        requires
            self.wf(),
        ensures
            c == char_at(self.text(), self.offset()),
    {
        self.look(0)
    }

    fn look(&self, ahead: usize) -> (c: Option<char>)
        requires
            self.wf(),
        ensures
            c == char_at(self.input@, self.position + ahead),
    {
        if ahead < self.input.len() - self.position {
            Some(self.input[self.position + ahead])
        } else {
            None
        }
    }

    fn advance(&mut self, by: usize)
        requires
            old(self).position + by <= old(self).input@.len(),
        ensures
            final(self).input == old(self).input,
            final(self).in_char_class == old(self).in_char_class,
            final(self).position == old(self).position + by,
    {
        let n = self.input.len();
        self.position = self.position + by;
    }

    /// Whether `c` may stand in the name of a group.
    fn is_identifier_char(c: char) -> (b: bool)
        ensures
            b == is_name_char(c),
    {
        char_is_name_char(c)
    }

    /// Reads the name that starts at the current position: the longest run of
    /// name characters.
    fn read_identifier(&mut self) -> (name: String)
        requires
            old(self).wf(),
        ensures
            final(self).input == old(self).input,
            final(self).in_char_class == old(self).in_char_class,
            final(self).position == old(self).position + name_run(
                old(self).input@,
                old(self).position as int,
            ),
            name@ == old(self).input@.subrange(
                old(self).position as int,
                final(self).position as int,
            ),
            final(self).wf(),
    {
        let start = self.position;
        proof {
            lemma_name_run_bound(self.input@, start as int);
        }
        while self.position < self.input.len() && Self::is_identifier_char(self.input[self.position])
            invariant
                self.input == old(self).input,
                self.in_char_class == old(self).in_char_class,
                start == old(self).position,
                start <= self.position <= self.input@.len(),
                name_run(self.input@, start as int) == (self.position - start) + name_run(
                    self.input@,
                    self.position as int,
                ),
            decreases self.input@.len() - self.position,
        {
            self.position = self.position + 1;
        }
        string_of(&self.input, start, self.position)
    }

    /// Reads the digits that start at the current position and returns the
    /// number they denote, held at the largest `u32` if it is larger.
    fn read_number(&mut self) -> (n: u32)
        requires
            old(self).wf(),
        ensures
            final(self).input == old(self).input,
            final(self).in_char_class == old(self).in_char_class,
            final(self).position == old(self).position + digit_run(
                old(self).input@,
                old(self).position as int,
            ),
            n == capped_number(old(self).input@, old(self).position as int),
            final(self).wf(),
    {
        let start = self.position;
        proof {
            lemma_digit_run_bound(self.input@, start as int);
        }
        while self.position < self.input.len() && char_is_digit(self.input[self.position])
            invariant
                self.input == old(self).input,
                self.in_char_class == old(self).in_char_class,
                start == old(self).position,
                start <= self.position <= self.input@.len(),
                digit_run(self.input@, start as int) == (self.position - start) + digit_run(
                    self.input@,
                    self.position as int,
                ),
            decreases self.input@.len() - self.position,
        {
            self.position = self.position + 1;
        }
        assert(all_digits(self.input@.subrange(start as int, self.position as int)));
        match parse_decimal(&self.input, start, self.position, u32::MAX) {
            Some(n) => n,
            None => u32::MAX,
        }
    }

    /// Reads what follows a backslash that has just been read.
    fn read_escape(&mut self) -> (t: Token)
        requires
            old(self).wf(),
            old(self).position >= 1,
            char_at(old(self).input@, old(self).position as int) != Some('g'),
        ensures
            final(self).input == old(self).input,
            final(self).in_char_class == old(self).in_char_class,
            (t@, final(self).position as int) == escape_at(
                old(self).input@,
                old(self).position - 1,
            ),
            final(self).wf(),
    {
        match self.look(0) {
            Some(c) => {
                if c == 'w' {
                    self.advance(1);
                    Token::WordChar
                } else if c == 'W' {
                    self.advance(1);
                    Token::NonWordChar
                } else if c == 'd' {
                    self.advance(1);
                    Token::Digit
                } else if c == 'D' {
                    self.advance(1);
                    Token::NonDigit
                } else if c == 's' {
                    self.advance(1);
                    Token::Whitespace
                } else if c == 'S' {
                    self.advance(1);
                    Token::NonWhitespace
                } else if c == 'b' {
                    self.advance(1);
                    Token::WordBoundary
                } else if c == 'B' {
                    self.advance(1);
                    Token::NonWordBoundary
                } else if char_is_digit(c) {
                    let n = self.read_number();
                    Token::BackrefNumber(n)
                } else {
                    self.advance(1);
                    Token::Escape(c)
                }
            },
            None => Token::Escape('\0'),
        }
    }

    /// Reads the rest of `\g{...}` once `\g{` has been read.
    fn read_g_backref(&mut self) -> (t: Token)
        requires
            old(self).wf(),
        ensures
            final(self).input == old(self).input,
            final(self).in_char_class == old(self).in_char_class,
            final(self).wf(),
            ({
                let s = old(self).input@;
                let from = old(self).position as int;
                let n = run_until(s, from, '}');
                &&& t@ == braced_backref(s.subrange(from, from + n))
                &&& final(self).position == if from + n < s.len() {
                    from + n + 1
                } else {
                    from + n
                }
            }),
    {
        let start = self.position;
        proof {
            lemma_run_until_bound(self.input@, start as int, '}');
        }
        while self.position < self.input.len() && self.input[self.position] != '}'
            invariant
                self.input == old(self).input,
                self.in_char_class == old(self).in_char_class,
                start == old(self).position,
                start <= self.position <= self.input@.len(),
                run_until(self.input@, start as int, '}') == (self.position - start) + run_until(
                    self.input@,
                    self.position as int,
                    '}',
                ),
            decreases self.input@.len() - self.position,
        {
            self.position = self.position + 1;
        }
        let end = self.position;
        if self.position < self.input.len() {
            self.position = self.position + 1;
        }
        let ghost content = self.input@.subrange(start as int, end as int);
        if end - start >= 2 && self.input[start] == '-' {
            let mut i = start + 1;
            while i < end && char_is_digit(self.input[i])
                invariant
                    start + 1 <= i <= end <= self.input@.len(),
                    forall|j: int| start + 1 <= j < i ==> is_digit(#[trigger] self.input@[j]),
                decreases end - i,
            {
                i += 1;
            }
            if i == end {
                assert(self.input@.subrange(start + 1, end as int) =~= content.subrange(
                    1,
                    content.len() as int,
                ));
                assert(all_digits(self.input@.subrange(start + 1, end as int)));
                match parse_decimal(&self.input, start + 1, end, 0x7fff_ffff) {
                    Some(n) => {
                        if n >= 1 {
                            return Token::BackrefRelative(-(n as i32));
                        }
                    },
                    None => {},
                }
            } else {
                assert(!is_digit(content.subrange(1, content.len() as int)[i - start - 1]));
            }
        }
        Token::BackrefName(string_of(&self.input, start, end))
    }

    /// Reads what follows a `(` that has just been read.
    fn read_paren(&mut self) -> (t: Token)
        requires
            old(self).wf(),
            old(self).position >= 1,
        ensures
            final(self).input == old(self).input,
            final(self).in_char_class == old(self).in_char_class,
            (t@, final(self).position as int) == paren_at(old(self).input@, old(self).position - 1),
            final(self).wf(),
    {
        let after = self.position;
        proof {
            lemma_name_run_bound(self.input@, after as int);
        }
        match self.look(0) {
            Some(c) => {
                if c == '?' {
                    if self.look(1) == Some(':') {
                        self.advance(2);
                        return Token::NonCapturing;
                    }
                } else if char_is_name_start(c) {
                    let name = self.read_identifier();
                    if self.look(0) == Some(':') {
                        self.advance(1);
                        return Token::NamedGroupStart(name);
                    }
                    self.position = after;
                }
            },
            None => {},
        }
        Token::LeftParen
    }

    /// Reads the next token. Behind the last token it returns `Eof`, again
    /// and again.
    pub fn next_token(&mut self) -> (t: Token)
        requires
            old(self).wf(),
        ensures
            final(self).wf(),
            final(self).text() == old(self).text(),
            (t@, final(self).offset()) == token_at(old(self).text(), old(self).offset()),
    {
        let c = match self.look(0) {
            None => {
                return Token::Eof;
            },
            Some(c) => c,
        };
        if c == '\\' {
            if self.look(1) == Some('g') {
                if self.look(2) == Some('{') {
                    self.advance(3);
                    self.read_g_backref()
                } else {
                    self.advance(2);
                    Token::Escape('g')
                }
            } else {
                self.advance(1);
                self.read_escape()
            }
        } else if c == '(' {
            self.advance(1);
            self.read_paren()
        } else if c == ')' {
            self.advance(1);
            self.in_char_class = false;
            Token::RightParen
        } else if c == '[' {
            self.advance(1);
            self.in_char_class = true;
            Token::LeftBracket
        } else if c == ']' {
            self.advance(1);
            self.in_char_class = false;
            Token::RightBracket
        } else if c == '{' {
            self.advance(1);
            Token::LeftBrace
        } else if c == '}' {
            self.advance(1);
            Token::RightBrace
        } else if c == ':' {
            self.advance(1);
            Token::Colon
        } else if c == ',' {
            self.advance(1);
            Token::Comma
        } else if c == '|' {
            self.advance(1);
            Token::Pipe
        } else if c == '^' {
            self.advance(1);
            Token::Caret
        } else if c == '$' {
            self.advance(1);
            Token::Dollar
        } else if c == '.' {
            self.advance(1);
            Token::Dot
        } else if c == '*' {
            if self.look(1) == Some('?') {
                self.advance(2);
                Token::StarLazy
            } else {
                self.advance(1);
                Token::Star
            }
        } else if c == '+' {
            if self.look(1) == Some('?') {
                self.advance(2);
                Token::PlusLazy
            } else {
                self.advance(1);
                Token::Plus
            }
        } else if c == '?' {
            self.advance(1);
            Token::Question
        } else {
            self.advance(1);
            Token::Literal(c)
        }
    }

    /// Reads on to the end of the pattern and gives the position of the
    /// backslash that ends it without escaping anything, if there is one.
    pub fn find_dangling_escape(&mut self) -> (r: Option<usize>)
        requires
            old(self).wf(),
        ensures
            final(self).wf(),
            final(self).text() == old(self).text(),
            match r {
                Some(p) => dangling_escape(old(self).text(), old(self).offset()) == Some(p as int),
                None => dangling_escape(old(self).text(), old(self).offset()) is None,
            },
    {
        let len = self.input.len();
        loop
            invariant
                self.wf(),
                len == self.input@.len(),
                self.input@ == old(self).input@,
                dangling_escape(self.input@, old(self).position as int) == dangling_escape(
                    self.input@,
                    self.position as int,
                ),
            decreases self.input@.len() - self.position,
        {
            let before = self.position;
            proof {
                lemma_token_advances(self.input@, before as int);
            }
            if before < len && before + 1 == len && self.input[before] == '\\' {
                return Some(before);
            }
            let token = self.next_token();
            match token {
                Token::Eof => {
                    return None;
                },
                _ => {},
            }
        }
    }

    /// Reads all the tokens that are left, the closing `Eof` included.
    pub fn tokenize(&mut self) -> (tokens: Vec<Token>)
        requires
            old(self).wf(),
        ensures
            final(self).wf(),
            final(self).text() == old(self).text(),
            final(self).offset() == old(self).text().len(),
            token_views(tokens@) == tokens_from(old(self).text(), old(self).offset()),
    {
        let mut tokens: Vec<Token> = Vec::new();
        loop
            invariant
                self.wf(),
                self.input@ == old(self).input@,
                old(self).position <= self.position,
                tokens_from(self.input@, old(self).position as int) == token_views(tokens@)
                    + tokens_from(self.input@, self.position as int),
            decreases self.input@.len() - self.position,
        {
            let ghost before = self.position as int;
            let ghost seen = token_views(tokens@);
            proof {
                lemma_token_advances(self.input@, before);
            }
            let token = self.next_token();
            let done = match token {
                Token::Eof => true,
                _ => false,
            };
            tokens.push(token);
            proof {
                assert(token_views(tokens@) =~= seen.push(token@));
                assert(seen + (seq![token@] + tokens_from(self.input@, self.position as int))
                    =~= seen.push(token@) + tokens_from(self.input@, self.position as int));
                if done {
                    assert(seen + seq![token@] =~= seen.push(token@));
                }
            }
            if done {
                return tokens;
            }
        }
    }
}

} // verus!
