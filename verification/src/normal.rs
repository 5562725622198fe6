//! The tokens of a pattern in their normal form, in which a plain
//! character has lost its backslash, parse as the tokens of the pattern
//! do.

use crate::ast::{ClassItem, ExprView, regex_text};
use crate::grammar::{
    alternation_at, alternation_rest, atom_at, class_at, class_item_at, class_items_at,
    counted_at, digit_tokens, digits_of, ends_sequence, is_digit_token, number_at, opens_group,
    quantified_at, quantifier_at, sequence_rest, simple_atom, tok,
};
use crate::error::ParseErrorView;
use crate::grammar::{lemma_positions_advance, parse_from, pattern_ast, well_ended};
use crate::lexer::{TokenView, dangling_escape};
use crate::reread::{
    fits, lemma_reread, lexed, normal, normal_token, parts_from, rereadable,
};
use crate::spelling::{
    counts_as_written, inside, lemma_digit_tokens_hold, lemma_quantifier_outside,
    lemma_whole_text, of_quantifier, spelling, unnamed,
};
use crate::text::{is_digit, is_plain};
use vstd::prelude::*;

verus! {

/// `w` is `ts` but for characters behind a backslash that stand outside
/// the character classes, are no digits, and have lost the backslash.
pub open spec fn retold(ts: Seq<TokenView>, w: Seq<TokenView>) -> bool {
    &&& w.len() == ts.len()
    &&& forall|i: int|
        0 <= i < ts.len() ==> (#[trigger] w[i] == ts[i]) || (ts[i] is Escape && !inside(ts, i)
            && !is_digit(ts[i]->Escape_0) && w[i] == TokenView::Literal(ts[i]->Escape_0))
}

/// Between `a` and `b` no token of `ts` is a colon.
pub open spec fn no_colons(ts: Seq<TokenView>, a: int, b: int) -> bool {
    forall|i: int| a <= i < b ==> !(#[trigger] ts[i] is Colon)
}

proof fn lemma_same_token(ts: Seq<TokenView>, w: Seq<TokenView>, i: int)
    requires
        retold(ts, w),
    ensures
        !(tok(ts, i) is Escape) ==> tok(w, i) == tok(ts, i),
        inside(ts, i) ==> tok(w, i) == tok(ts, i),
        tok(ts, i) is Escape ==> tok(w, i) == tok(ts, i) || (tok(w, i) == TokenView::Literal(
            tok(ts, i)->Escape_0,
        ) && !is_digit(tok(ts, i)->Escape_0)),
{
    if 0 <= i < ts.len() {
        assert(w[i] == ts[i] || (ts[i] is Escape && !inside(ts, i) && !is_digit(ts[i]->Escape_0)
            && w[i] == TokenView::Literal(ts[i]->Escape_0)));
    }
}

proof fn lemma_same_digits(ts: Seq<TokenView>, w: Seq<TokenView>, pos: int)
    requires
        retold(ts, w),
        0 <= pos <= ts.len(),
    ensures
        digit_tokens(w, pos) == digit_tokens(ts, pos),
        digits_of(w, pos, digit_tokens(ts, pos)) == digits_of(ts, pos, digit_tokens(ts, pos)),
    decreases ts.len() - pos,
{
    lemma_same_token(ts, w, pos);
    if pos < ts.len() && is_digit_token(ts[pos]) {
        lemma_same_digits(ts, w, pos + 1);
    }
    lemma_digit_tokens_hold(ts, pos);
    let n = digit_tokens(ts, pos);
    assert forall|i: int| 0 <= i < n implies #[trigger] tok(w, pos + i) == tok(ts, pos + i) by {
        assert(is_digit_token(ts[pos + i]));
        lemma_same_token(ts, w, pos + i);
    }
    assert(digits_of(w, pos, n) =~= digits_of(ts, pos, n));
}

proof fn lemma_same_number(ts: Seq<TokenView>, w: Seq<TokenView>, pos: int)
    requires
        retold(ts, w),
        0 <= pos <= ts.len(),
        number_at(ts, pos) is Ok,
    ensures
        number_at(w, pos) == number_at(ts, pos),
        pos < number_at(ts, pos)->Ok_0.1 <= ts.len(),
{
    lemma_same_digits(ts, w, pos);
    lemma_digit_tokens_hold(ts, pos);
}

proof fn lemma_same_quantifier(ts: Seq<TokenView>, w: Seq<TokenView>, pos: int)
    requires
        retold(ts, w),
        0 <= pos <= ts.len(),
        quantifier_at(ts, pos) is Ok,
    ensures
        quantifier_at(w, pos) == quantifier_at(ts, pos),
{
    lemma_same_token(ts, w, pos);
    if tok(ts, pos) is LeftBrace {
        lemma_same_number(ts, w, pos + 1);
        let (min, p) = number_at(ts, pos + 1)->Ok_0;
        lemma_same_token(ts, w, p);
        lemma_same_token(ts, w, p + 1);
        lemma_same_token(ts, w, p + 2);
        if tok(ts, p) is Comma && !(tok(ts, p + 1) is RightBrace) {
            lemma_same_number(ts, w, p + 1);
            let (max, close) = number_at(ts, p + 1)->Ok_0;
            lemma_same_token(ts, w, close);
            lemma_same_token(ts, w, close + 1);
        }
        assert(counted_at(w, pos + 1) == counted_at(ts, pos + 1));
    }
}

proof fn lemma_same_class_item(ts: Seq<TokenView>, w: Seq<TokenView>, pos: int)
    requires
        retold(ts, w),
        0 <= pos < ts.len(),
        inside(ts, pos),
        !(ts[pos] is RightBracket),
        class_item_at(ts, pos) is Ok,
    ensures
        class_item_at(w, pos) == class_item_at(ts, pos),
        pos < class_item_at(ts, pos)->Ok_0.1 <= ts.len(),
        inside(ts, class_item_at(ts, pos)->Ok_0.1),
        no_colons(ts, pos, class_item_at(ts, pos)->Ok_0.1),
{
    lemma_same_token(ts, w, pos);
    lemma_same_token(ts, w, pos + 1);
    assert(inside(ts, pos + 1));
    if tok(ts, pos + 1) == TokenView::Literal('-') {
        assert(inside(ts, pos + 2));
        lemma_same_token(ts, w, pos + 2);
        if class_item_at(ts, pos)->Ok_0.0 is Range {
            assert(inside(ts, pos + 3));
        }
    }
}

proof fn lemma_same_class_items(
    ts: Seq<TokenView>,
    w: Seq<TokenView>,
    pos: int,
    acc: Seq<ClassItem>,
)
    requires
        retold(ts, w),
        0 <= pos <= ts.len(),
        inside(ts, pos),
        class_items_at(ts, pos, acc) is Ok,
    ensures
        class_items_at(w, pos, acc) == class_items_at(ts, pos, acc),
        pos <= class_items_at(ts, pos, acc)->Ok_0.1 <= ts.len(),
        inside(ts, class_items_at(ts, pos, acc)->Ok_0.1),
        no_colons(ts, pos, class_items_at(ts, pos, acc)->Ok_0.1),
    decreases ts.len() - pos,
{
    lemma_same_token(ts, w, pos);
    if !(tok(ts, pos) is RightBracket || tok(ts, pos) is Eof || pos >= ts.len()) {
        lemma_same_class_item(ts, w, pos);
        let (item, p) = class_item_at(ts, pos)->Ok_0;
        lemma_same_class_items(ts, w, p, acc.push(item));
    }
}

proof fn lemma_same_class(ts: Seq<TokenView>, w: Seq<TokenView>, pos: int)
    requires
        retold(ts, w),
        1 <= pos <= ts.len(),
        ts[pos - 1] is LeftBracket,
        class_at(ts, pos) is Ok,
    ensures
        class_at(w, pos) == class_at(ts, pos),
        pos < class_at(ts, pos)->Ok_0.1 <= ts.len(),
        no_colons(ts, pos - 1, class_at(ts, pos)->Ok_0.1),
{
    assert(inside(ts, pos));
    lemma_same_token(ts, w, pos);
    let first = if tok(ts, pos) is Caret {
        pos + 1
    } else {
        pos
    };
    assert(inside(ts, first));
    lemma_same_class_items(ts, w, first, Seq::empty());
    let (items, p) = class_items_at(ts, first, Seq::empty())->Ok_0;
    lemma_same_token(ts, w, p);
}

proof fn lemma_same_opening(t: TokenView, told: TokenView)
    requires
        told == t || (t is Escape && told == TokenView::Literal(t->Escape_0)),
    ensures
        simple_atom(told) == simple_atom(t),
        opens_group(told) == opens_group(t),
        told is LeftBracket == t is LeftBracket,
        opens_group(t) ==> told == t,
        t is Colon ==> simple_atom(t) is None && !opens_group(t) && !(t is LeftBracket),
{
}

proof fn lemma_same_atom(ts: Seq<TokenView>, w: Seq<TokenView>, pos: int)
    requires
        retold(ts, w),
        0 <= pos < ts.len(),
        atom_at(ts, pos) is Ok,
    ensures
        atom_at(w, pos) == atom_at(ts, pos),
        pos < atom_at(ts, pos)->Ok_0.1 <= ts.len(),
        no_colons(ts, pos, atom_at(ts, pos)->Ok_0.1),
    decreases ts.len() - pos, 0nat,
{
    let t = tok(ts, pos);
    let told = tok(w, pos);
    lemma_same_token(ts, w, pos);
    lemma_same_opening(t, told);
    assert(!(ts[pos] is Colon));
    if simple_atom(t) is Some {
        assert(atom_at(ts, pos) == Ok::<(ExprView, int), ParseErrorView>(
            (simple_atom(t)->Some_0, pos + 1),
        ));
        assert(atom_at(w, pos) == Ok::<(ExprView, int), ParseErrorView>(
            (simple_atom(told)->Some_0, pos + 1),
        ));
    } else if opens_group(t) {
        lemma_same_alternation(ts, w, pos + 1);
        let (inner, p) = alternation_at(ts, pos + 1)->Ok_0;
        lemma_same_token(ts, w, p);
        assert(tok(ts, p) is RightParen);
        assert(tok(w, p) is RightParen);
        assert forall|i: int| pos <= i < p + 1 implies !(#[trigger] ts[i] is Colon) by {
            if i > pos && i < p {
                assert(no_colons(ts, pos + 1, p));
            }
        }
    } else {
        assert(t is LeftBracket);
        lemma_same_class(ts, w, pos + 1);
    }
}

proof fn lemma_same_quantified(ts: Seq<TokenView>, w: Seq<TokenView>, pos: int)
    requires
        retold(ts, w),
        0 <= pos < ts.len(),
        quantified_at(ts, pos) is Ok,
    ensures
        quantified_at(w, pos) == quantified_at(ts, pos),
        pos < quantified_at(ts, pos)->Ok_0.1 <= ts.len(),
        no_colons(ts, pos, quantified_at(ts, pos)->Ok_0.1),
    decreases ts.len() - pos, 1nat,
{
    lemma_same_atom(ts, w, pos);
    let (atom, p) = atom_at(ts, pos)->Ok_0;
    lemma_same_quantifier(ts, w, p);
    lemma_quantifier_outside(ts, p);
    let end = quantifier_at(ts, p)->Ok_0.1;
    assert forall|i: int| p <= i < end implies !(#[trigger] ts[i] is Colon) by {
        assert(of_quantifier(ts[i]));
    }
}

proof fn lemma_same_sequence(ts: Seq<TokenView>, w: Seq<TokenView>, pos: int, acc: Seq<ExprView>)
    requires
        retold(ts, w),
        0 <= pos <= ts.len(),
        sequence_rest(ts, pos, acc) is Ok,
    ensures
        sequence_rest(w, pos, acc) == sequence_rest(ts, pos, acc),
        pos <= sequence_rest(ts, pos, acc)->Ok_0.1 <= ts.len(),
        no_colons(ts, pos, sequence_rest(ts, pos, acc)->Ok_0.1),
    decreases ts.len() - pos, 2nat,
{
    lemma_same_token(ts, w, pos);
    if !ends_sequence(tok(ts, pos)) {
        lemma_same_quantified(ts, w, pos);
        let (item, p) = quantified_at(ts, pos)->Ok_0;
        lemma_same_sequence(ts, w, p, acc.push(item));
    }
}

proof fn lemma_same_alternation_rest(
    ts: Seq<TokenView>,
    w: Seq<TokenView>,
    pos: int,
    acc: Seq<ExprView>,
)
    requires
        retold(ts, w),
        0 <= pos <= ts.len(),
        alternation_rest(ts, pos, acc) is Ok,
    ensures
        alternation_rest(w, pos, acc) == alternation_rest(ts, pos, acc),
        pos <= alternation_rest(ts, pos, acc)->Ok_0.1 <= ts.len(),
        no_colons(ts, pos, alternation_rest(ts, pos, acc)->Ok_0.1),
    decreases ts.len() - pos, 3nat,
{
    lemma_same_token(ts, w, pos);
    if tok(ts, pos) is Pipe {
        lemma_same_sequence(ts, w, pos + 1, Seq::empty());
        let (next, p) = sequence_rest(ts, pos + 1, Seq::empty())->Ok_0;
        lemma_same_alternation_rest(ts, w, p, acc.push(next));
    }
}

/// An alternation parses from the normal form of the tokens as it does
/// from the tokens, and holds no colon.
pub proof fn lemma_same_alternation(ts: Seq<TokenView>, w: Seq<TokenView>, pos: int)
    requires
        retold(ts, w),
        0 <= pos <= ts.len(),
        alternation_at(ts, pos) is Ok,
    ensures
        alternation_at(w, pos) == alternation_at(ts, pos),
        pos <= alternation_at(ts, pos)->Ok_0.1 <= ts.len(),
        no_colons(ts, pos, alternation_at(ts, pos)->Ok_0.1),
    decreases ts.len() - pos, 4nat,
{
    lemma_same_sequence(ts, w, pos, Seq::empty());
    let (first, p) = sequence_rest(ts, pos, Seq::empty())->Ok_0;
    lemma_same_alternation_rest(ts, w, p, seq![first]);
}

/// No token of `ts` opens a named group.
pub open spec fn no_names(ts: Seq<TokenView>) -> bool {
    forall|i: int| 0 <= i < ts.len() ==> !(#[trigger] ts[i] is NamedGroupStart)
}

proof fn lemma_normal_retold(ts: Seq<TokenView>)
    requires
        lexed(ts),
    ensures
        retold(ts, normal(ts)),
{
    let w = normal(ts);
    assert forall|i: int| 0 <= i < ts.len() implies (#[trigger] w[i] == ts[i]) || (ts[i] is Escape
        && !inside(ts, i) && !is_digit(ts[i]->Escape_0) && w[i] == TokenView::Literal(
        ts[i]->Escape_0,
    )) by {
        assert(w[i] == normal_token(ts, i));
        assert(rereadable(ts[i]) || ts[i] is Eof || ts[i] is Colon || ts[i] is NamedGroupStart);
    }
}

proof fn lemma_normal_inside(ts: Seq<TokenView>, i: int)
    ensures
        inside(normal(ts), i) == inside(ts, i),
    decreases i,
{
    let w = normal(ts);
    if 0 < i <= ts.len() {
        assert(w[i - 1] == normal_token(ts, i - 1));
        lemma_normal_inside(ts, i - 1);
    }
}

proof fn lemma_normal_unnamed(ts: Seq<TokenView>)
    requires
        lexed(ts),
        no_names(ts),
    ensures
        unnamed(normal(ts)),
{
    let w = normal(ts);
    assert forall|i: int| 0 <= i < w.len() implies {
        &&& !(#[trigger] w[i] is NamedGroupStart)
        &&& (w[i] is Literal ==> is_plain(w[i]->Literal_0))
        &&& (w[i] is Escape && is_plain(w[i]->Escape_0) ==> inside(w, i))
    } by {
        assert(w[i] == normal_token(ts, i));
        assert(rereadable(ts[i]) || ts[i] is Eof || ts[i] is Colon || ts[i] is NamedGroupStart);
        assert(!(ts[i] is NamedGroupStart));
        lemma_normal_inside(ts, i);
    }
}

proof fn lemma_normal_counts(ts: Seq<TokenView>)
    requires
        lexed(ts),
        counts_as_written(ts),
    ensures
        counts_as_written(normal(ts)),
{
    let w = normal(ts);
    lemma_normal_retold(ts);
    assert forall|i: int|
        0 <= i < w.len() && (#[trigger] w[i] is LeftBrace || w[i] is Comma) && tok(w, i + 1)
            == TokenView::Literal('0') implies !is_digit_token(tok(w, i + 2)) by {
        lemma_same_token(ts, w, i);
        lemma_same_token(ts, w, i + 1);
        lemma_same_token(ts, w, i + 2);
        assert(ts[i] is LeftBrace || ts[i] is Comma);
        assert(tok(ts, i + 1) == TokenView::Literal('0'));
    }
}

proof fn lemma_normal_fits(ts: Seq<TokenView>)
    requires
        lexed(ts),
        no_names(ts),
        ts.len() >= 1,
        no_colons(ts, 0, ts.len() - 1),
    ensures
        fits(normal(ts).drop_last()),
{
    let w = normal(ts);
    let u = w.drop_last();
    lemma_normal_retold(ts);
    assert forall|i: int| 0 <= i < u.len() implies rereadable(#[trigger] u[i]) && parts_from(
        u[i],
        tok(u, i + 1),
    ) by {
        assert(u[i] == w[i]);
        assert(w[i] == normal_token(ts, i));
        assert(rereadable(ts[i]) || ts[i] is Eof || ts[i] is Colon || ts[i] is NamedGroupStart);
        assert(!(ts[i] is Eof));
        assert(!(ts[i] is Colon));
        assert(!(ts[i] is NamedGroupStart));
        assert(parts_from(ts[i], tok(ts, i + 1)));
        lemma_same_token(ts, w, i + 1);
        if i + 1 < u.len() {
            assert(u[i + 1] == w[i + 1]);
            assert(tok(u, i + 1) == tok(w, i + 1));
        } else {
            assert(ts[i + 1] is Eof);
            assert(tok(u, i + 1) is Eof);
        }
    }
}

/// A token sequence as the lexer makes it, without named groups and
/// needless zeros, that parses: what is written for its syntax tree
/// parses to that tree.
pub proof fn lemma_tokens_round_trip(ts: Seq<TokenView>)
    requires
        well_ended(ts),
        lexed(ts),
        no_names(ts),
        counts_as_written(ts),
        parse_from(ts, 0) is Ok,
    ensures
        pattern_ast(regex_text(parse_from(ts, 0)->Ok_0)) == parse_from(ts, 0),
        dangling_escape(regex_text(parse_from(ts, 0)->Ok_0), 0) is None,
{
    let w = normal(ts);
    let u = w.drop_last();
    let e = parse_from(ts, 0)->Ok_0;
    let p = alternation_at(ts, 0)->Ok_0.1;
    lemma_positions_advance(ts, 0, Seq::empty());
    assert(tok(ts, p) is Eof);
    assert(p == ts.len() - 1);
    lemma_normal_retold(ts);
    lemma_same_alternation(ts, w, 0);
    lemma_same_token(ts, w, p);
    assert(parse_from(w, 0) == Ok::<ExprView, ParseErrorView>(e));
    lemma_normal_unnamed(ts);
    lemma_normal_counts(ts);
    assert(w[w.len() - 1] == normal_token(ts, ts.len() - 1));
    assert forall|i: int| 0 <= i < w.len() - 1 implies !(#[trigger] w[i] is Eof) by {
        assert(w[i] == normal_token(ts, i));
    }
    assert(well_ended(w));
    lemma_whole_text(w);
    lemma_normal_fits(ts);
    lemma_reread(u);
    assert(u.push(TokenView::Eof) =~= w);
    assert(regex_text(e) == spelling(u));
}

} // verus!
