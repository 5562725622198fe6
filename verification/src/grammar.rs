//! The grammar of patterns, as functions from a token sequence and a position
//! to a syntax tree and the position behind it.
//!
//! From lowest to highest precedence:
//!
//! ```text
//! alternation := sequence ('|' sequence)*
//! sequence    := quantified*
//! quantified  := atom quantifier?
//! quantifier  := '*' | '*?' | '+' | '+?' | '?' | '{' n '}' | '{' n ',' '}' '?'? | '{' n ',' m '}' '?'?
//! atom        := literal | '.' | '^' | '$' | escape | shorthand | boundary | backref
//!              | '(' alternation ')' | '(?:' alternation ')' | '(name:' alternation ')'
//!              | '[' '^'? class_item+ ']'
//! class_item  := literal '-' literal | literal | escape | shorthand
//! ```
//!
//! The functions test that positions move forward and stay among the
//! tokens, which keeps their recursion well founded. On a token sequence that
//! ends in its only `Eof` these tests never fail: see
//! [`lemma_positions_advance`].

use crate::ast::{CharacterClassView, ClassItem, ExprView, Quantifier, quantifier_text};
use crate::error::{LexerErrorKindView, ParseErrorView, RegexErrorView};
use crate::lexer::{TokenView, dangling_escape, tokens_of};
use crate::text::{decimal_value, is_digit};
use vstd::prelude::*;

verus! {

/// What parsing some construct gives: its value and the position behind it,
/// or the error that stopped it.
pub type Parsed<T> = Result<(T, int), ParseErrorView>;

/// The token at `pos`; behind the end stands `Eof`.
pub open spec fn tok(ts: Seq<TokenView>, pos: int) -> TokenView {
    if 0 <= pos < ts.len() {
        ts[pos]
    } else {
        TokenView::Eof
    }
}

/// The error for a token that the grammar does not allow at `pos`.
pub open spec fn unexpected(ts: Seq<TokenView>, pos: int, expected: Seq<char>) -> ParseErrorView {
    ParseErrorView::UnexpectedToken { expected, found: tok(ts, pos).text() }
}

/// `t` ends a sequence.
pub open spec fn ends_sequence(t: TokenView) -> bool {
    t is Eof || t is RightParen || t is RightBracket || t is RightBrace || t is Pipe
}

/// `t` is a literal decimal digit.
pub open spec fn is_digit_token(t: TokenView) -> bool {
    t is Literal && is_digit(t->Literal_0)
}

/// The number of literal digit tokens in a row from `pos` on.
pub open spec fn digit_tokens(ts: Seq<TokenView>, pos: int) -> nat
    decreases ts.len() - pos,
{
    if 0 <= pos < ts.len() && is_digit_token(ts[pos]) {
        1 + digit_tokens(ts, pos + 1)
    } else {
        0
    }
}

/// The digits that the `n` tokens from `pos` on hold.
pub open spec fn digits_of(ts: Seq<TokenView>, pos: int, n: nat) -> Seq<char> {
    Seq::new(n, |i: int| tok(ts, pos + i)->Literal_0)
}

/// A number in a counted quantifier: one or more digits, of a value that a
/// `u32` holds.
pub open spec fn number_at(ts: Seq<TokenView>, pos: int) -> Parsed<u32> {
    let n = digit_tokens(ts, pos);
    if n == 0 {
        Err(unexpected(ts, pos, "number"@))
    } else if decimal_value(digits_of(ts, pos, n)) > u32::MAX {
        Err(ParseErrorView::InvalidQuantifier("count too large"@))
    } else {
        Ok((decimal_value(digits_of(ts, pos, n)) as u32, pos + n))
    }
}

/// The lazy form of a quantifier and the position behind its `?`, where the
/// quantifier has a lazy form and a `?` follows; else the quantifier as it is.
pub open spec fn with_laziness(ts: Seq<TokenView>, pos: int, q: Quantifier) -> (Quantifier, int) {
    if tok(ts, pos) is Question {
        match q {
            Quantifier::AtLeast(n) => (Quantifier::AtLeastLazy(n), pos + 1),
            Quantifier::Between(n, m) => (Quantifier::BetweenLazy(n, m), pos + 1),
            _ => (q, pos),
        }
    } else {
        (q, pos)
    }
}

/// What follows the `{` of a counted quantifier, `pos` being just behind it.
pub open spec fn counted_at(ts: Seq<TokenView>, pos: int) -> Parsed<Quantifier> {
    match number_at(ts, pos) {
        Err(e) => Err(e),
        Ok((min, p)) => {
            let bounds: Parsed<Quantifier> = if tok(ts, p) is Comma {
                if tok(ts, p + 1) is RightBrace {
                    Ok((Quantifier::AtLeast(min), p + 1))
                } else {
                    match number_at(ts, p + 1) {
                        Err(e) => Err(e),
                        Ok((max, after)) => Ok((Quantifier::Between(min, max), after)),
                    }
                }
            } else {
                Ok((Quantifier::Exactly(min), p))
            };
            match bounds {
                Err(e) => Err(e),
                Ok((q, close)) => {
                    if !(tok(ts, close) is RightBrace) {
                        Err(unexpected(ts, close, "RightBrace"@))
                    } else if q is Between && q->Between_1 < q->Between_0 {
                        Err(ParseErrorView::InvalidQuantifier(quantifier_text(q)))
                    } else {
                        Ok(with_laziness(ts, close + 1, q))
                    }
                },
            }
        },
    }
}

/// The quantifier at `pos`, if one stands there.
pub open spec fn quantifier_at(ts: Seq<TokenView>, pos: int) -> Parsed<Option<Quantifier>> {
    match tok(ts, pos) {
        TokenView::Star => Ok((Some(Quantifier::ZeroOrMore), pos + 1)),
        TokenView::StarLazy => Ok((Some(Quantifier::ZeroOrMoreLazy), pos + 1)),
        TokenView::Plus => Ok((Some(Quantifier::OneOrMore), pos + 1)),
        TokenView::PlusLazy => Ok((Some(Quantifier::OneOrMoreLazy), pos + 1)),
        TokenView::Question => Ok((Some(Quantifier::Optional), pos + 1)),
        TokenView::LeftBrace => match counted_at(ts, pos + 1) {
            Err(e) => Err(e),
            Ok((q, p)) => Ok((Some(q), p)),
        },
        _ => Ok((None, pos)),
    }
}

/// The letter of the shorthand class that `t` stands for, if it is one.
pub open spec fn shorthand_letter(t: TokenView) -> Option<char> {
    match t {
        TokenView::WordChar => Some('w'),
        TokenView::NonWordChar => Some('W'),
        TokenView::Digit => Some('d'),
        TokenView::NonDigit => Some('D'),
        TokenView::Whitespace => Some('s'),
        TokenView::NonWhitespace => Some('S'),
        _ => None,
    }
}

/// One item of a character class. A range needs a literal, a literal `-` and
/// a literal that is not below the first; a `-` that forms no range stands
/// for itself.
pub open spec fn class_item_at(ts: Seq<TokenView>, pos: int) -> Parsed<ClassItem> {
    match tok(ts, pos) {
        TokenView::Literal(c) => {
            if tok(ts, pos + 1) == TokenView::Literal('-') && tok(ts, pos + 2) is Literal && c
                <= tok(ts, pos + 2)->Literal_0 {
                Ok((ClassItem::Range(c, tok(ts, pos + 2)->Literal_0), pos + 3))
            } else {
                Ok((ClassItem::Char(c), pos + 1))
            }
        },
        TokenView::Escape(c) => Ok((ClassItem::Shorthand(c), pos + 1)),
        t => match shorthand_letter(t) {
            Some(c) => Ok((ClassItem::Shorthand(c), pos + 1)),
            None => Err(unexpected(ts, pos, "character or escape"@)),
        },
    }
}

/// The items of a character class from `pos` on, added to `acc`, up to the
/// closing bracket or the end of the pattern.
pub open spec fn class_items_at(ts: Seq<TokenView>, pos: int, acc: Seq<ClassItem>) -> Parsed<
    Seq<ClassItem>,
>
    decreases ts.len() - pos,
{
    if tok(ts, pos) is RightBracket || tok(ts, pos) is Eof || pos < 0 || pos >= ts.len() {
        Ok((acc, pos))
    } else {
        match class_item_at(ts, pos) {
            Err(e) => Err(e),
            Ok((item, p)) => if p <= pos {
                Ok((acc, pos))
            } else {
                class_items_at(ts, p, acc.push(item))
            },
        }
    }
}

/// What follows the `[` of a character class, `pos` being just behind it.
pub open spec fn class_at(ts: Seq<TokenView>, pos: int) -> Parsed<ExprView> {
    let negated = tok(ts, pos) is Caret;
    let first = if negated {
        pos + 1
    } else {
        pos
    };
    match class_items_at(ts, first, Seq::empty()) {
        Err(e) => Err(e),
        Ok((items, p)) => {
            if items.len() == 0 {
                Err(unexpected(ts, p, "character class item"@))
            } else if !(tok(ts, p) is RightBracket) {
                Err(unexpected(ts, p, "RightBracket"@))
            } else {
                Ok((ExprView::CharacterClass(CharacterClassView { negated, items }), p + 1))
            }
        },
    }
}

/// An atom that is a single token, if `t` is one.
pub open spec fn simple_atom(t: TokenView) -> Option<ExprView> {
    match t {
        TokenView::Literal(c) => Some(ExprView::Literal(c)),
        TokenView::Dot => Some(ExprView::Any),
        TokenView::Caret => Some(ExprView::StartAnchor),
        TokenView::Dollar => Some(ExprView::EndAnchor),
        TokenView::Escape(c) => Some(ExprView::Literal(c)),
        TokenView::BackrefNumber(n) => Some(ExprView::Backreference(n)),
        TokenView::BackrefRelative(n) => Some(ExprView::RelativeBackreference(n)),
        TokenView::BackrefName(name) => Some(ExprView::NamedBackreference(name)),
        TokenView::WordBoundary => Some(ExprView::WordBoundary),
        TokenView::NonWordBoundary => Some(ExprView::NonWordBoundary),
        t => match shorthand_letter(t) {
            Some(c) => Some(ExprView::Shorthand(c)),
            None => None,
        },
    }
}

/// The group that the opener `opener` makes of `inner`.
pub open spec fn wrap_group(opener: TokenView, inner: ExprView) -> ExprView {
    match opener {
        TokenView::NamedGroupStart(name) => ExprView::NamedGroup { name, pattern: Box::new(inner) },
        TokenView::NonCapturing => ExprView::NonCapturingGroup(Box::new(inner)),
        _ => ExprView::Group(Box::new(inner)),
    }
}

/// `t` opens a group.
pub open spec fn opens_group(t: TokenView) -> bool {
    t is LeftParen || t is NonCapturing || t is NamedGroupStart
}

/// The expression that the alternatives `alts` make.
pub open spec fn alternation_of(alts: Seq<ExprView>) -> ExprView {
    if alts.len() == 1 {
        alts[0]
    } else {
        ExprView::Alternation(alts)
    }
}

/// The expression that the items `items` make, one after the other.
pub open spec fn sequence_of(items: Seq<ExprView>) -> ExprView {
    if items.len() == 0 {
        ExprView::Empty
    } else if items.len() == 1 {
        items[0]
    } else {
        ExprView::Sequence(items)
    }
}

/// An alternation that starts at `pos`.
pub open spec fn alternation_at(ts: Seq<TokenView>, pos: int) -> Parsed<ExprView>
    decreases ts.len() - pos, 4nat,
{
    if pos < 0 || pos >= ts.len() {
        Err(ParseErrorView::UnexpectedEof)
    } else {
        match sequence_rest(ts, pos, Seq::empty()) {
            Err(e) => Err(e),
            Ok((first, p)) => if p < pos || p > ts.len() {
                Err(ParseErrorView::UnexpectedEof)
            } else {
                alternation_rest(ts, p, seq![first])
            },
        }
    }
}

/// The alternatives that follow those of `acc`, `pos` being behind the last
/// of them.
pub open spec fn alternation_rest(ts: Seq<TokenView>, pos: int, acc: Seq<ExprView>) -> Parsed<
    ExprView,
>
    decreases ts.len() - pos, 3nat,
{
    if pos < 0 || pos >= ts.len() {
        Err(ParseErrorView::UnexpectedEof)
    } else if tok(ts, pos) is Pipe {
        match sequence_rest(ts, pos + 1, Seq::empty()) {
            Err(e) => Err(e),
            Ok((next, p)) => if p <= pos || p > ts.len() {
                Err(ParseErrorView::UnexpectedEof)
            } else {
                alternation_rest(ts, p, acc.push(next))
            },
        }
    } else {
        Ok((alternation_of(acc), pos))
    }
}

/// The items of a sequence that follow those of `acc`, `pos` being behind
/// the last of them.
pub open spec fn sequence_rest(ts: Seq<TokenView>, pos: int, acc: Seq<ExprView>) -> Parsed<
    ExprView,
>
    decreases ts.len() - pos, 2nat,
{
    if pos < 0 || pos >= ts.len() {
        Err(ParseErrorView::UnexpectedEof)
    } else if ends_sequence(tok(ts, pos)) {
        Ok((sequence_of(acc), pos))
    } else {
        match quantified_at(ts, pos) {
            Err(e) => Err(e),
            Ok((item, p)) => if p <= pos || p > ts.len() {
                Err(ParseErrorView::UnexpectedEof)
            } else {
                sequence_rest(ts, p, acc.push(item))
            },
        }
    }
}

/// An atom with the quantifier behind it, if there is one.
pub open spec fn quantified_at(ts: Seq<TokenView>, pos: int) -> Parsed<ExprView>
    decreases ts.len() - pos, 1nat,
{
    if pos < 0 || pos >= ts.len() {
        Err(ParseErrorView::UnexpectedEof)
    } else {
        match atom_at(ts, pos) {
            Err(e) => Err(e),
            Ok((atom, p)) => match quantifier_at(ts, p) {
                Err(e) => Err(e),
                Ok((None, after)) => Ok((atom, after)),
                Ok((Some(q), after)) => Ok(
                    (ExprView::Quantified { expr: Box::new(atom), quantifier: q }, after),
                ),
            },
        }
    }
}

/// An atom that starts at `pos`.
pub open spec fn atom_at(ts: Seq<TokenView>, pos: int) -> Parsed<ExprView>
    decreases ts.len() - pos, 0nat,
{
    if pos < 0 || pos >= ts.len() {
        Err(ParseErrorView::UnexpectedEof)
    } else {
        let t = tok(ts, pos);
        if simple_atom(t) is Some {
            Ok((simple_atom(t)->Some_0, pos + 1))
        } else if opens_group(t) {
            match alternation_at(ts, pos + 1) {
                Err(e) => Err(e),
                Ok((inner, p)) => if tok(ts, p) is RightParen {
                    Ok((wrap_group(t, inner), p + 1))
                } else {
                    Err(unexpected(ts, p, "RightParen"@))
                },
            }
        } else if t is LeftBracket {
            class_at(ts, pos + 1)
        } else if t is Eof {
            Err(ParseErrorView::UnexpectedEof)
        } else {
            Err(unexpected(ts, pos, "expression"@))
        }
    }
}

/// The syntax tree of the whole token sequence `ts`, read from `pos`: an
/// alternation that reaches the closing `Eof`.
pub open spec fn parse_from(ts: Seq<TokenView>, pos: int) -> Result<ExprView, ParseErrorView> {
    match alternation_at(ts, pos) {
        Err(e) => Err(e),
        Ok((e, p)) => if tok(ts, p) is Eof {
            Ok(e)
        } else {
            Err(unexpected(ts, p, "EOF"@))
        },
    }
}

/// The syntax tree of the pattern `s`, or the error that parsing it gives.
pub open spec fn pattern_ast(s: Seq<char>) -> Result<ExprView, ParseErrorView> {
    parse_from(tokens_of(s), 0)
}

/// The syntax tree of the pattern `s` as compiling and transpiling take
/// it: a pattern that ends in a backslash that escapes nothing is refused,
/// with the position of that backslash; any other pattern has the tree or
/// the error of [`pattern_ast`].
pub open spec fn pattern_tree(s: Seq<char>) -> Result<ExprView, RegexErrorView> {
    match dangling_escape(s, 0) {
        Some(position) => Err(
            RegexErrorView::Lexer {
                position: position as nat,
                kind: LexerErrorKindView::InvalidEscape('\0'),
            },
        ),
        None => match pattern_ast(s) {
            Ok(e) => Ok(e),
            Err(e) => Err(RegexErrorView::Parse(e)),
        },
    }
}

/// `ts` ends in `Eof` and holds no other `Eof`: it is the token sequence of
/// a pattern.
pub open spec fn well_ended(ts: Seq<TokenView>) -> bool {
    &&& ts.len() >= 1
    &&& ts.last() is Eof
    &&& forall|i: int| 0 <= i < ts.len() - 1 ==> !(#[trigger] ts[i] is Eof)
}

proof fn lemma_digit_tokens(ts: Seq<TokenView>, pos: int)
    requires
        well_ended(ts),
        0 <= pos < ts.len(),
    ensures
        pos + digit_tokens(ts, pos) < ts.len(),
    decreases ts.len() - pos,
{
    if is_digit_token(ts[pos]) {
        assert(pos < ts.len() - 1);
        lemma_digit_tokens(ts, pos + 1);
    }
}

proof fn lemma_counted_advances(ts: Seq<TokenView>, pos: int)
    requires
        well_ended(ts),
        0 <= pos < ts.len(),
    ensures
        counted_at(ts, pos) is Ok ==> pos < counted_at(ts, pos)->Ok_0.1 < ts.len(),
        quantifier_at(ts, pos) is Ok ==> pos <= quantifier_at(ts, pos)->Ok_0.1 < ts.len(),
{
    lemma_digit_tokens(ts, pos);
    match number_at(ts, pos) {
        Ok((min, p)) => {
            if tok(ts, p) is Comma && !(tok(ts, p + 1) is RightBrace) {
                lemma_digit_tokens(ts, p + 1);
            }
        },
        Err(_) => {},
    }
    if ts[pos] is LeftBrace {
        lemma_digit_tokens(ts, pos + 1);
        match number_at(ts, pos + 1) {
            Ok((min, p)) => {
                if tok(ts, p) is Comma && !(tok(ts, p + 1) is RightBrace) {
                    lemma_digit_tokens(ts, p + 1);
                }
            },
            Err(_) => {},
        }
    }
}

proof fn lemma_class_items_advance(ts: Seq<TokenView>, pos: int, acc: Seq<ClassItem>)
    requires
        well_ended(ts),
        0 <= pos < ts.len(),
    ensures
        class_items_at(ts, pos, acc) is Ok ==> pos <= class_items_at(ts, pos, acc)->Ok_0.1
            < ts.len() && class_items_at(ts, pos, acc)->Ok_0.0.len() >= acc.len(),
        class_items_at(ts, pos, acc) is Ok && class_items_at(ts, pos, acc)->Ok_0.0.len()
            > acc.len() ==> pos < class_items_at(ts, pos, acc)->Ok_0.1,
    decreases ts.len() - pos,
{
    if !(tok(ts, pos) is RightBracket || tok(ts, pos) is Eof) {
        match class_item_at(ts, pos) {
            Ok((item, p)) => {
                assert(pos < p < ts.len());
                lemma_class_items_advance(ts, p, acc.push(item));
            },
            Err(_) => {},
        }
    }
}

/// On the token sequence of a pattern every construct that parses ends
/// among the tokens, and an atom takes at least one token: the tests on
/// positions in the grammar never fail.
pub proof fn lemma_positions_advance(ts: Seq<TokenView>, pos: int, acc: Seq<ExprView>)
    requires
        well_ended(ts),
        0 <= pos < ts.len(),
    ensures
        atom_at(ts, pos) is Ok ==> pos < atom_at(ts, pos)->Ok_0.1 < ts.len(),
        quantified_at(ts, pos) is Ok ==> pos < quantified_at(ts, pos)->Ok_0.1 < ts.len(),
        sequence_rest(ts, pos, acc) is Ok ==> pos <= sequence_rest(ts, pos, acc)->Ok_0.1 < ts.len(),
        alternation_rest(ts, pos, acc) is Ok ==> pos <= alternation_rest(ts, pos, acc)->Ok_0.1
            < ts.len(),
        alternation_at(ts, pos) is Ok ==> pos <= alternation_at(ts, pos)->Ok_0.1 < ts.len(),
    decreases ts.len() - pos, 5nat,
{
    lemma_atom_advances(ts, pos);
    lemma_quantified_advances(ts, pos);
    lemma_sequence_advances(ts, pos, acc);
    lemma_alternation_rest_advances(ts, pos, acc);
    lemma_alternation_advances(ts, pos);
}

proof fn lemma_atom_advances(ts: Seq<TokenView>, pos: int)
    requires
        well_ended(ts),
        0 <= pos < ts.len(),
    ensures
        atom_at(ts, pos) is Ok ==> pos < atom_at(ts, pos)->Ok_0.1 < ts.len(),
    decreases ts.len() - pos, 0nat,
{
    let t = tok(ts, pos);
    if simple_atom(t) is Some {
        assert(!(t is Eof));
    } else if opens_group(t) {
        assert(!(t is Eof));
        lemma_alternation_advances(ts, pos + 1);
        match alternation_at(ts, pos + 1) {
            Ok((inner, p)) => {
                if tok(ts, p) is RightParen {
                    assert(!(ts[p] is Eof));
                }
            },
            Err(_) => {},
        }
    } else if t is LeftBracket {
        assert(!(t is Eof));
        let first = if tok(ts, pos + 1) is Caret {
            pos + 2
        } else {
            pos + 1
        };
        if tok(ts, pos + 1) is Caret {
            assert(!(ts[pos + 1] is Eof));
        }
        lemma_class_items_advance(ts, first, Seq::empty());
        match class_items_at(ts, first, Seq::empty()) {
            Ok((items, p)) => {
                if tok(ts, p) is RightBracket {
                    assert(!(ts[p] is Eof));
                }
            },
            Err(_) => {},
        }
    }
}

proof fn lemma_quantified_advances(ts: Seq<TokenView>, pos: int)
    requires
        well_ended(ts),
        0 <= pos < ts.len(),
    ensures
        quantified_at(ts, pos) is Ok ==> pos < quantified_at(ts, pos)->Ok_0.1 < ts.len(),
    decreases ts.len() - pos, 1nat,
{
    lemma_atom_advances(ts, pos);
    match atom_at(ts, pos) {
        Ok((atom, p)) => {
            lemma_counted_advances(ts, p);
            let t = tok(ts, p);
            if t is Star || t is StarLazy || t is Plus || t is PlusLazy || t is Question {
                assert(!(ts[p] is Eof));
            }
        },
        Err(_) => {},
    }
}

proof fn lemma_sequence_advances(ts: Seq<TokenView>, pos: int, acc: Seq<ExprView>)
    requires
        well_ended(ts),
        0 <= pos < ts.len(),
    ensures
        sequence_rest(ts, pos, acc) is Ok ==> pos <= sequence_rest(ts, pos, acc)->Ok_0.1 < ts.len(),
    decreases ts.len() - pos, 2nat,
{
    if !ends_sequence(tok(ts, pos)) {
        lemma_quantified_advances(ts, pos);
        match quantified_at(ts, pos) {
            Ok((item, p)) => {
                lemma_sequence_advances(ts, p, acc.push(item));
            },
            Err(_) => {},
        }
    }
}

proof fn lemma_alternation_rest_advances(ts: Seq<TokenView>, pos: int, acc: Seq<ExprView>)
    requires
        well_ended(ts),
        0 <= pos < ts.len(),
    ensures
        alternation_rest(ts, pos, acc) is Ok ==> pos <= alternation_rest(ts, pos, acc)->Ok_0.1
            < ts.len(),
    decreases ts.len() - pos, 3nat,
{
    if tok(ts, pos) is Pipe {
        assert(!(ts[pos] is Eof));
        lemma_sequence_advances(ts, pos + 1, Seq::empty());
        match sequence_rest(ts, pos + 1, Seq::empty()) {
            Ok((next, p)) => {
                lemma_alternation_rest_advances(ts, p, acc.push(next));
            },
            Err(_) => {},
        }
    }
}

proof fn lemma_alternation_advances(ts: Seq<TokenView>, pos: int)
    requires
        well_ended(ts),
        0 <= pos < ts.len(),
    ensures
        alternation_at(ts, pos) is Ok ==> pos <= alternation_at(ts, pos)->Ok_0.1 < ts.len(),
    decreases ts.len() - pos, 4nat,
{
    lemma_sequence_advances(ts, pos, Seq::empty());
    match sequence_rest(ts, pos, Seq::empty()) {
        Ok((first, p)) => {
            lemma_alternation_rest_advances(ts, p, seq![first]);
        },
        Err(_) => {},
    }
}

} // verus!
