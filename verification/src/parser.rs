//! The parser: recursive descent over the tokens of a pattern.
//!
//! Every parsing function computes the function of the same construct in
//! [`crate::grammar`].

use crate::ast::{
    CharacterClass, ClassItem, Expr, ExprView, Quantifier, expr_views, lemma_expr_views,
    lemma_expr_views_push,
};
use crate::error::{LexerErrorKind, ParseError, ParseErrorView, RegexError, RegexErrorView};
use crate::grammar::{
    Parsed, alternation_at, alternation_rest, atom_at, class_at, class_item_at, class_items_at,
    alternation_of, counted_at, digit_tokens, digits_of, ends_sequence, number_at, opens_group,
    parse_from, pattern_ast, pattern_tree, quantified_at, quantifier_at, sequence_rest, tok,
    unexpected,
};
use crate::lexer::{Lexer, Token, TokenView, lemma_tokens_end_in_eof, token_views, tokens_of};
use crate::text::{char_digit_value, char_is_digit, decimal_value, lemma_decimal_value_grows};
use vstd::prelude::*;
use vstd::string::*;

verus! {

/// `r` with the position `behind` is what the grammar function gave as `s`.
pub open spec fn agrees(r: Result<Expr, ParseError>, behind: int, s: Parsed<ExprView>) -> bool {
    match r {
        Ok(e) => s == Ok::<(ExprView, int), ParseErrorView>((e@, behind)),
        Err(e) => s == Err::<(ExprView, int), ParseErrorView>(e@),
    }
}

/// As [`agrees`], for values that are their own view.
pub open spec fn agrees_plain<T>(r: Result<T, ParseError>, behind: int, s: Parsed<T>) -> bool {
    match r {
        Ok(v) => s == Ok::<(T, int), ParseErrorView>((v, behind)),
        Err(e) => s == Err::<(T, int), ParseErrorView>(e@),
    }
}

/// How a closing token reads where it is expected and missing.
pub open spec fn closer_name(t: TokenView) -> Seq<char> {
    match t {
        TokenView::RightParen => "RightParen"@,
        TokenView::RightBracket => "RightBracket"@,
        _ => "RightBrace"@,
    }
}

/// A parser over the tokens of one pattern.
pub struct Parser {
    tokens: Vec<Token>,
    pos: usize,
}

impl Parser {
    /// The tokens that are being parsed.
    pub closed spec fn tokens(&self) -> Seq<TokenView> {
        token_views(self.tokens@)
    }

    /// The position of the next unread token.
    pub closed spec fn offset(&self) -> int {
        self.pos as int
    }

    /// The tokens end in the only `Eof`, and the position is that of a token.
    pub closed spec fn wf(&self) -> bool {
        &&& self.pos < self.tokens@.len()
        &&& self.tokens@.last()@ is Eof
        &&& forall|i: int| 0 <= i < self.tokens@.len() - 1 ==> !((#[trigger] self.tokens@[i])@ is Eof)
    }

    /// A parser at the start of the pattern `input`.
    pub fn new(input: &str) -> (p: Parser)
        ensures
            p.wf(),
            p.tokens() == tokens_of(input@),
            p.offset() == 0,
    {
        let mut lexer = Lexer::new(input);
        let tokens = lexer.tokenize();
        proof {
            lemma_tokens_end_in_eof(input@, 0);
            let ts = token_views(tokens@);
            assert(ts.len() == tokens@.len());
            assert(ts.last() == tokens@.last()@);
            assert forall|i: int| 0 <= i < tokens@.len() - 1 implies !((#[trigger] tokens@[i])@ is Eof) by {
                assert(ts[i] == tokens@[i]@);
            }
        }
        Parser { tokens, pos: 0 }
    }

    /// The token at the current position.
    fn current(&self) -> (t: &Token)
        requires
            self.wf(),
        ensures
            t@ == tok(self.tokens(), self.offset()),
            *t == self.tokens@[self.pos as int],
    {
        &self.tokens[self.pos]
    }

    /// The token `ahead` places behind the current one; `Eof` behind the end.
    fn look(&self, ahead: usize) -> (t: &Token)
        requires
            self.wf(),
        ensures
            t@ == tok(self.tokens(), self.offset() + ahead),
    {
        if ahead < self.tokens.len() - self.pos {
            &self.tokens[self.pos + ahead]
        } else {
            &self.tokens[self.tokens.len() - 1]
        }
    }

    /// Steps over `by` tokens, none of which is `Eof`.
    fn advance(&mut self, by: usize)
        requires
            old(self).wf(),
            forall|p: int|
                old(self).offset() <= p < old(self).offset() + by ==> !(#[trigger] tok(
                    old(self).tokens(),
                    p,
                ) is Eof),
        ensures
            final(self).wf(),
            final(self).tokens == old(self).tokens,
            final(self).pos == old(self).pos + by,
    {
        proof {
            if by > 0 {
                let last = self.pos + by - 1;
                assert(!(tok(self.tokens(), last as int) is Eof));
                if last >= self.tokens@.len() - 1 {
                    if last == self.tokens@.len() - 1 {
                        assert(self.tokens()[last as int] == self.tokens@.last()@);
                    }
                    assert(false);
                }
            }
        }
        let n = self.tokens.len();
        self.pos = self.pos + by;
    }

    /// The error for the current token where the grammar wants `expected`.
    fn unexpected(&self, expected: &str) -> (e: ParseError)
        requires
            self.wf(),
        ensures
            e@ == unexpected(self.tokens(), self.offset(), expected@),
    {
        ParseError::UnexpectedToken {
            expected: String::from_str(expected),
            found: self.current().to_string(),
        }
    }

    /// Steps over the token `expected`, which closes a group, a class or a
    /// counted quantifier; any other token is an error.
    fn expect(&mut self, expected: Token) -> (r: Result<(), ParseError>)
        requires
            old(self).wf(),
            expected@ is RightParen || expected@ is RightBracket || expected@ is RightBrace,
        ensures
            final(self).wf(),
            final(self).tokens == old(self).tokens,
            if tok(old(self).tokens(), old(self).offset()) == expected@ {
                r is Ok && final(self).pos == old(self).pos + 1
            } else {
                r is Err && final(self).pos == old(self).pos && r->Err_0@ == unexpected(
                    old(self).tokens(),
                    old(self).offset(),
                    closer_name(expected@),
                )
            },
    {
        let found = match (self.current(), &expected) {
            (Token::RightParen, Token::RightParen) => true,
            (Token::RightBracket, Token::RightBracket) => true,
            (Token::RightBrace, Token::RightBrace) => true,
            _ => false,
        };
        if found {
            self.advance(1);
            Ok(())
        } else {
            match expected {
                Token::RightParen => Err(self.unexpected("RightParen")),
                Token::RightBracket => Err(self.unexpected("RightBracket")),
                _ => Err(self.unexpected("RightBrace")),
            }
        }
    }

    /// Reads the number of a counted quantifier.
    fn parse_number(&mut self) -> (r: Result<u32, ParseError>)
        requires
            old(self).wf(),
        ensures
            final(self).wf(),
            final(self).tokens == old(self).tokens,
            agrees_plain(r, final(self).offset(), number_at(old(self).tokens(), old(self).offset())),
            r is Ok ==> final(self).pos > old(self).pos,
    {
        let start = self.pos;
        let ghost ts = self.tokens();
        let ghost n = digit_tokens(ts, start as int);
        let mut acc: u64 = 0;
        loop
            invariant
                self.wf(),
                self.tokens == old(self).tokens,
                ts == self.tokens(),
                start == old(self).pos,
                start <= self.pos,
                n == digit_tokens(ts, start as int),
                n == (self.pos - start) + digit_tokens(ts, self.pos as int),
                acc == decimal_value(digits_of(ts, start as int, (self.pos - start) as nat)),
                acc <= u32::MAX,
            ensures
                n == self.pos - start,
            decreases self.tokens@.len() - self.pos,
        {
            let digit = match self.current() {
                Token::Literal(c) => if char_is_digit(*c) {
                    Some(*c)
                } else {
                    None
                },
                _ => None,
            };
            match digit {
                None => {
                    assert(digit_tokens(ts, self.pos as int) == 0);
                    break ;
                },
                Some(c) => {
                    assert(digit_tokens(ts, self.pos as int) == 1 + digit_tokens(ts, self.pos + 1));
                    let ghost seen = (self.pos - start) as nat;
                    proof {
                        let more = digits_of(ts, start as int, seen + 1);
                        assert(more.drop_last() =~= digits_of(ts, start as int, seen));
                        assert(more.last() == c);
                        let whole = digits_of(ts, start as int, n);
                        assert(whole.take(seen + 1 as int) =~= more);
                        lemma_decimal_value_grows(whole, seen + 1 as int);
                    }
                    let bigger: u64 = acc * 10 + char_digit_value(c) as u64;
                    if bigger > u32::MAX as u64 {
                        return Err(
                            ParseError::InvalidQuantifier(String::from_str("count too large")),
                        );
                    }
                    acc = bigger;
                    self.advance(1);
                },
            }
        }
        if self.pos == start {
            Err(self.unexpected("number"))
        } else {
            Ok(acc as u32)
        }
    }

    /// Reads a counted quantifier, the opening brace of which has been read.
    fn parse_counted(&mut self) -> (r: Result<Quantifier, ParseError>)
        requires
            old(self).wf(),
        ensures
            final(self).wf(),
            final(self).tokens == old(self).tokens,
            agrees_plain(r, final(self).offset(), counted_at(old(self).tokens(), old(self).offset())),
            r is Ok ==> final(self).pos > old(self).pos,
    {
        let min = match self.parse_number() {
            Ok(n) => n,
            Err(e) => {
                return Err(e);
            },
        };
        let is_comma = match self.current() {
            Token::Comma => true,
            _ => false,
        };
        let quantifier = if is_comma {
            let closes = match self.look(1) {
                Token::RightBrace => true,
                _ => false,
            };
            if closes {
                self.advance(1);
                Quantifier::AtLeast(min)
            } else {
                self.advance(1);
                match self.parse_number() {
                    Ok(max) => Quantifier::Between(min, max),
                    Err(e) => {
                        return Err(e);
                    },
                }
            }
        } else {
            Quantifier::Exactly(min)
        };
        match self.expect(Token::RightBrace) {
            Ok(()) => {},
            Err(e) => {
                return Err(e);
            },
        }
        match quantifier {
            Quantifier::Between(lo, hi) => {
                if hi < lo {
                    return Err(ParseError::InvalidQuantifier(quantifier.to_regex_string()));
                }
            },
            _ => {},
        }
        let lazy = match self.current() {
            Token::Question => true,
            _ => false,
        };
        if lazy {
            match quantifier {
                Quantifier::AtLeast(n) => {
                    self.advance(1);
                    Ok(Quantifier::AtLeastLazy(n))
                },
                Quantifier::Between(n, m) => {
                    self.advance(1);
                    Ok(Quantifier::BetweenLazy(n, m))
                },
                _ => Ok(quantifier),
            }
        } else {
            Ok(quantifier)
        }
    }

    /// Reads the quantifier at the current position, if one stands there.
    fn parse_quantifier(&mut self) -> (r: Result<Option<Quantifier>, ParseError>)
        requires
            old(self).wf(),
        ensures
            final(self).wf(),
            final(self).tokens == old(self).tokens,
            agrees_plain(
                r,
                final(self).offset(),
                quantifier_at(old(self).tokens(), old(self).offset()),
            ),
            r is Ok ==> final(self).pos >= old(self).pos,
    {
        match self.current() {
            Token::Star => {
                self.advance(1);
                Ok(Some(Quantifier::ZeroOrMore))
            },
            Token::StarLazy => {
                self.advance(1);
                Ok(Some(Quantifier::ZeroOrMoreLazy))
            },
            Token::Plus => {
                self.advance(1);
                Ok(Some(Quantifier::OneOrMore))
            },
            Token::PlusLazy => {
                self.advance(1);
                Ok(Some(Quantifier::OneOrMoreLazy))
            },
            Token::Question => {
                self.advance(1);
                Ok(Some(Quantifier::Optional))
            },
            Token::LeftBrace => {
                self.advance(1);
                match self.parse_counted() {
                    Ok(q) => Ok(Some(q)),
                    Err(e) => Err(e),
                }
            },
            _ => Ok(None),
        }
    }

    /// Reads one item of a character class.
    fn parse_class_item(&mut self) -> (r: Result<ClassItem, ParseError>)
        requires
            old(self).wf(),
        ensures
            final(self).wf(),
            final(self).tokens == old(self).tokens,
            agrees_plain(
                r,
                final(self).offset(),
                class_item_at(old(self).tokens(), old(self).offset()),
            ),
            r is Ok ==> final(self).pos > old(self).pos,
    {
        match self.current() {
            Token::Literal(c) => {
                let first = *c;
                let dash = match self.look(1) {
                    Token::Literal(d) => *d == '-',
                    _ => false,
                };
                let last = match self.look(2) {
                    Token::Literal(e) => Some(*e),
                    _ => None,
                };
                match last {
                    Some(e) => {
                        if dash && first <= e {
                            self.advance(3);
                            return Ok(ClassItem::Range(first, e));
                        }
                    },
                    None => {},
                }
                self.advance(1);
                Ok(ClassItem::Char(first))
            },
            Token::Escape(c) => {
                let c = *c;
                self.advance(1);
                Ok(ClassItem::Shorthand(c))
            },
            Token::WordChar => {
                self.advance(1);
                Ok(ClassItem::Shorthand('w'))
            },
            Token::NonWordChar => {
                self.advance(1);
                Ok(ClassItem::Shorthand('W'))
            },
            Token::Digit => {
                self.advance(1);
                Ok(ClassItem::Shorthand('d'))
            },
            Token::NonDigit => {
                self.advance(1);
                Ok(ClassItem::Shorthand('D'))
            },
            Token::Whitespace => {
                self.advance(1);
                Ok(ClassItem::Shorthand('s'))
            },
            Token::NonWhitespace => {
                self.advance(1);
                Ok(ClassItem::Shorthand('S'))
            },
            _ => Err(self.unexpected("character or escape")),
        }
    }

    /// Reads a character class, the opening bracket of which has been read.
    fn parse_char_class(&mut self) -> (r: Result<Expr, ParseError>)
        requires
            old(self).wf(),
        ensures
            final(self).wf(),
            final(self).tokens == old(self).tokens,
            agrees(r, final(self).offset(), class_at(old(self).tokens(), old(self).offset())),
            r is Ok ==> final(self).pos > old(self).pos,
    {
        let negated = match self.current() {
            Token::Caret => true,
            _ => false,
        };
        if negated {
            self.advance(1);
        }
        let ghost ts = self.tokens();
        let ghost first = self.pos as int;
        let mut items: Vec<ClassItem> = Vec::new();
        loop
            invariant
                self.wf(),
                self.tokens == old(self).tokens,
                ts == self.tokens(),
                first <= self.pos,
                first == if tok(ts, old(self).pos as int) is Caret {
                    old(self).pos + 1
                } else {
                    old(self).pos as int
                },
                class_items_at(ts, first, Seq::empty()) == class_items_at(
                    ts,
                    self.pos as int,
                    items@,
                ),
                items@.len() == 0 ==> self.pos == first,
            ensures
                class_items_at(ts, first, Seq::empty()) == Ok::<(Seq<ClassItem>, int), ParseErrorView>(
                    (items@, self.pos as int),
                ),
            decreases self.tokens@.len() - self.pos,
        {
            let ghost here = self.pos as int;
            let ghost seen = items@;
            let stop = match self.current() {
                Token::RightBracket => true,
                Token::Eof => true,
                _ => false,
            };
            if stop {
                assert(class_items_at(ts, here, seen) == Ok::<(Seq<ClassItem>, int), ParseErrorView>(
                    (seen, here),
                ));
                break ;
            }
            match self.parse_class_item() {
                Ok(item) => {
                    items.push(item);
                    assert(class_items_at(ts, here, seen) == class_items_at(
                        ts,
                        self.pos as int,
                        seen.push(item),
                    ));
                },
                Err(e) => {
                    assert(class_items_at(ts, here, seen) == Err::<
                        (Seq<ClassItem>, int),
                        ParseErrorView,
                    >(e@));
                    return Err(e);
                },
            }
        }
        if items.len() == 0 {
            return Err(self.unexpected("character class item"));
        }
        match self.expect(Token::RightBracket) {
            Ok(()) => Ok(Expr::CharacterClass(CharacterClass { negated, items })),
            Err(e) => Err(e),
        }
    }

    /// Reads a group, the opener of which is the current token.
    fn parse_group(&mut self) -> (r: Result<Expr, ParseError>)
        requires
            old(self).wf(),
            opens_group(tok(old(self).tokens(), old(self).offset())),
        ensures
            final(self).wf(),
            final(self).tokens == old(self).tokens,
            agrees(r, final(self).offset(), atom_at(old(self).tokens(), old(self).offset())),
            r is Ok ==> final(self).pos > old(self).pos,
        decreases old(self).tokens@.len() - old(self).pos, 0nat, 0nat,
    {
        let ghost ts = self.tokens();
        let name: Option<String> = match self.current() {
            Token::NamedGroupStart(name) => Some(name.clone()),
            _ => None,
        };
        let capturing = match self.current() {
            Token::NonCapturing => false,
            _ => true,
        };
        self.advance(1);
        let inner = match self.parse_alternation() {
            Ok(e) => e,
            Err(e) => {
                return Err(e);
            },
        };
        match self.expect(Token::RightParen) {
            Ok(()) => {},
            Err(e) => {
                return Err(e);
            },
        }
        match name {
            Some(name) => Ok(Expr::NamedGroup { name, pattern: Box::new(inner) }),
            None => if capturing {
                Ok(Expr::Group(Box::new(inner)))
            } else {
                Ok(Expr::NonCapturingGroup(Box::new(inner)))
            },
        }
    }

    /// Reads an atom.
    fn parse_atom(&mut self) -> (r: Result<Expr, ParseError>)
        requires
            old(self).wf(),
        ensures
            final(self).wf(),
            final(self).tokens == old(self).tokens,
            agrees(r, final(self).offset(), atom_at(old(self).tokens(), old(self).offset())),
            r is Ok ==> final(self).pos > old(self).pos,
        decreases old(self).tokens@.len() - old(self).pos, 0nat, 1nat,
    {
        match self.current() {
            Token::Literal(c) => {
                let expr = Expr::Literal(*c);
                self.advance(1);
                Ok(expr)
            },
            Token::Dot => {
                self.advance(1);
                Ok(Expr::Any)
            },
            Token::Caret => {
                self.advance(1);
                Ok(Expr::StartAnchor)
            },
            Token::Dollar => {
                self.advance(1);
                Ok(Expr::EndAnchor)
            },
            Token::Escape(c) => {
                let expr = Expr::Literal(*c);
                self.advance(1);
                Ok(expr)
            },
            Token::BackrefNumber(n) => {
                let expr = Expr::Backreference(*n);
                self.advance(1);
                Ok(expr)
            },
            Token::BackrefRelative(n) => {
                let expr = Expr::RelativeBackreference(*n);
                self.advance(1);
                Ok(expr)
            },
            Token::BackrefName(name) => {
                let expr = Expr::NamedBackreference(name.clone());
                self.advance(1);
                Ok(expr)
            },
            Token::WordChar => {
                self.advance(1);
                Ok(Expr::Shorthand('w'))
            },
            Token::NonWordChar => {
                self.advance(1);
                Ok(Expr::Shorthand('W'))
            },
            Token::Digit => {
                self.advance(1);
                Ok(Expr::Shorthand('d'))
            },
            Token::NonDigit => {
                self.advance(1);
                Ok(Expr::Shorthand('D'))
            },
            Token::Whitespace => {
                self.advance(1);
                Ok(Expr::Shorthand('s'))
            },
            Token::NonWhitespace => {
                self.advance(1);
                Ok(Expr::Shorthand('S'))
            },
            Token::WordBoundary => {
                self.advance(1);
                Ok(Expr::WordBoundary)
            },
            Token::NonWordBoundary => {
                self.advance(1);
                Ok(Expr::NonWordBoundary)
            },
            Token::LeftParen => self.parse_group(),
            Token::NamedGroupStart(_) => self.parse_group(),
            Token::NonCapturing => self.parse_group(),
            Token::LeftBracket => {
                self.advance(1);
                self.parse_char_class()
            },
            Token::Eof => Err(ParseError::UnexpectedEof),
            _ => Err(self.unexpected("expression")),
        }
    }

    /// Reads an atom and the quantifier behind it, if there is one.
    fn parse_quantified(&mut self) -> (r: Result<Expr, ParseError>)
        requires
            old(self).wf(),
        ensures
            final(self).wf(),
            final(self).tokens == old(self).tokens,
            agrees(r, final(self).offset(), quantified_at(old(self).tokens(), old(self).offset())),
            r is Ok ==> final(self).pos > old(self).pos,
        decreases old(self).tokens@.len() - old(self).pos, 1nat, 0nat,
    {
        let atom = match self.parse_atom() {
            Ok(e) => e,
            Err(e) => {
                return Err(e);
            },
        };
        match self.parse_quantifier() {
            Ok(Some(quantifier)) => Ok(Expr::Quantified { expr: Box::new(atom), quantifier }),
            Ok(None) => Ok(atom),
            Err(e) => Err(e),
        }
    }

    /// Whether the current token ends a sequence.
    fn is_sequence_end(&self) -> (b: bool)
        requires
            self.wf(),
        ensures
            b == ends_sequence(tok(self.tokens(), self.offset())),
    {
        match self.current() {
            Token::Eof => true,
            Token::RightParen => true,
            Token::RightBracket => true,
            Token::RightBrace => true,
            Token::Pipe => true,
            _ => false,
        }
    }

    /// Reads a sequence: quantified atoms up to a token that ends it.
    fn parse_sequence(&mut self) -> (r: Result<Expr, ParseError>)
        requires
            old(self).wf(),
        ensures
            final(self).wf(),
            final(self).tokens == old(self).tokens,
            agrees(
                r,
                final(self).offset(),
                sequence_rest(old(self).tokens(), old(self).offset(), Seq::empty()),
            ),
            r is Ok ==> final(self).pos >= old(self).pos,
        decreases old(self).tokens@.len() - old(self).pos, 2nat, 0nat,
    {
        let ghost ts = self.tokens();
        let ghost start = self.pos as int;
        let mut items: Vec<Expr> = Vec::new();
        proof {
            lemma_expr_views(items);
            assert(expr_views(items) =~= Seq::<ExprView>::empty());
        }
        while !self.is_sequence_end()
            invariant
                self.wf(),
                self.tokens == old(self).tokens,
                ts == self.tokens(),
                start == old(self).pos,
                start <= self.pos,
                sequence_rest(ts, start, Seq::empty()) == sequence_rest(
                    ts,
                    self.pos as int,
                    expr_views(items),
                ),
            decreases self.tokens@.len() - self.pos,
        {
            match self.parse_quantified() {
                Ok(item) => {
                    let ghost before = items;
                    items.push(item);
                    proof {
                        lemma_expr_views_push(before, items, item);
                    }
                },
                Err(e) => {
                    return Err(e);
                },
            }
        }
        proof {
            lemma_expr_views(items);
        }
        Ok(Expr::sequence(items))
    }

    /// Reads an alternation: sequences with `|` between them.
    fn parse_alternation(&mut self) -> (r: Result<Expr, ParseError>)
        requires
            old(self).wf(),
        ensures
            final(self).wf(),
            final(self).tokens == old(self).tokens,
            agrees(r, final(self).offset(), alternation_at(old(self).tokens(), old(self).offset())),
            r is Ok ==> final(self).pos >= old(self).pos,
        decreases old(self).tokens@.len() - old(self).pos, 4nat, 0nat,
    {
        let ghost ts = self.tokens();
        let ghost start = self.pos as int;
        let mut alternatives: Vec<Expr> = Vec::new();
        match self.parse_sequence() {
            Ok(first) => {
                let ghost before = alternatives;
                alternatives.push(first);
                proof {
                    lemma_expr_views(before);
                    lemma_expr_views_push(before, alternatives, first);
                    assert(expr_views(alternatives) =~= seq![first@]);
                }
            },
            Err(e) => {
                return Err(e);
            },
        }
        loop
            invariant
                self.wf(),
                self.tokens == old(self).tokens,
                ts == self.tokens(),
                start == old(self).pos,
                start <= self.pos,
                alternatives@.len() >= 1,
                alternation_at(ts, start) == alternation_rest(
                    ts,
                    self.pos as int,
                    expr_views(alternatives),
                ),
            ensures
                alternation_at(ts, start) == Ok::<(ExprView, int), ParseErrorView>(
                    (alternation_of(expr_views(alternatives)), self.pos as int),
                ),
            decreases self.tokens@.len() - self.pos,
        {
            let ghost here = self.pos as int;
            let ghost seen = expr_views(alternatives);
            let more = match self.current() {
                Token::Pipe => true,
                _ => false,
            };
            if !more {
                assert(alternation_rest(ts, here, seen) == Ok::<(ExprView, int), ParseErrorView>(
                    (alternation_of(seen), here),
                ));
                break ;
            }
            self.advance(1);
            match self.parse_sequence() {
                Ok(next) => {
                    let ghost before = alternatives;
                    alternatives.push(next);
                    proof {
                        lemma_expr_views_push(before, alternatives, next);
                        assert(alternation_rest(ts, here, seen) == alternation_rest(
                            ts,
                            self.pos as int,
                            seen.push(next@),
                        ));
                    }
                },
                Err(e) => {
                    assert(alternation_rest(ts, here, seen) == Err::<(ExprView, int), ParseErrorView>(
                        e@,
                    ));
                    return Err(e);
                },
            }
        }
        proof {
            lemma_expr_views(alternatives);
        }
        Ok(Expr::alternation(alternatives))
    }

    /// Parses the tokens from the current position to the end of the pattern.
    pub fn parse(&mut self) -> (r: Result<Expr, ParseError>)
        requires
            old(self).wf(),
        ensures
            final(self).wf(),
            final(self).tokens() == old(self).tokens(),
            match r {
                Ok(e) => parse_from(old(self).tokens(), old(self).offset()) == Ok::<
                    ExprView,
                    ParseErrorView,
                >(e@),
                Err(e) => parse_from(old(self).tokens(), old(self).offset()) == Err::<
                    ExprView,
                    ParseErrorView,
                >(e@),
            },
    {
        let expr = match self.parse_alternation() {
            Ok(e) => e,
            Err(e) => {
                return Err(e);
            },
        };
        let done = match self.current() {
            Token::Eof => true,
            _ => false,
        };
        if !done {
            return Err(self.unexpected("EOF"));
        }
        Ok(expr)
    }
}

/// Parses the pattern `input` into its syntax tree. A backslash at the end
/// of the pattern is taken for a backslash in front of the character NUL;
/// [`read_pattern`] refuses such a pattern.
pub fn parse(input: &str) -> (r: Result<Expr, ParseError>)
    ensures
        match r {
            Ok(e) => pattern_ast(input@) == Ok::<ExprView, ParseErrorView>(e@),
            Err(e) => pattern_ast(input@) == Err::<ExprView, ParseErrorView>(e@),
        },
{
    let mut parser = Parser::new(input);
    parser.parse()
}

/// Parses the pattern `input` for compiling or transpiling: as [`parse`]
/// does, but a backslash at the end of the pattern that escapes nothing is
/// an error.
pub fn read_pattern(input: &str) -> (r: Result<Expr, RegexError>)
    ensures
        match r {
            Ok(e) => pattern_tree(input@) == Ok::<ExprView, RegexErrorView>(e@),
            Err(e) => pattern_tree(input@) == Err::<ExprView, RegexErrorView>(e@),
        },
{
    let mut lexer = Lexer::new(input);
    match lexer.find_dangling_escape() {
        Some(position) => {
            return Err(
                RegexError::Lexer { position, kind: LexerErrorKind::InvalidEscape('\0') },
            );
        },
        None => {},
    }
    match parse(input) {
        Ok(e) => Ok(e),
        Err(e) => Err(RegexError::Parse(e)),
    }
}

} // verus!
