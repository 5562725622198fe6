//! The round trip through the conventional notation: parsing what
//! transpiling gives is parsing the pattern itself, for every pattern that
//! names no group. A pattern of plain characters is the simplest case: it
//! reads the same in both notations.

use crate::ast::{ExprView, regex_text, sequence_text};
use crate::error::ParseErrorView;
use crate::grammar::{
    alternation_at, alternation_rest, atom_at, ends_sequence, parse_from, pattern_ast,
    pattern_tree, quantified_at, quantifier_at, sequence_of, sequence_rest, simple_atom, tok,
};
use crate::lexer::{
    TokenView, dangling_escape, lemma_tokens_end_in_eof, token_at, tokens_from, tokens_of,
};
use crate::normal::no_names;
use crate::reread::lemma_tokens_lexed;
use crate::text::is_plain;
use crate::transpiler::transpiled;
use crate::zeros::lemma_any_tokens_round_trip;
use vstd::prelude::*;

verus! {

/// Every character of `s` is plain.
pub open spec fn all_plain(s: Seq<char>) -> bool {
    forall|i: int| 0 <= i < s.len() ==> is_plain(#[trigger] s[i])
}

/// The character of `s` at place `i`.
pub open spec fn nth(s: Seq<char>, i: int) -> char {
    s[i]
}

/// The literal tokens of the characters of `s` from `pos` on, and `Eof`.
pub open spec fn literal_tokens(s: Seq<char>, pos: int) -> Seq<TokenView>
    decreases s.len() - pos,
{
    if pos < 0 || pos >= s.len() {
        seq![TokenView::Eof]
    } else {
        seq![TokenView::Literal(nth(s, pos))] + literal_tokens(s, pos + 1)
    }
}

/// The literal expressions of the first `n` characters of `s`.
pub open spec fn literals(s: Seq<char>, n: int) -> Seq<ExprView> {
    Seq::new(n as nat, |i: int| ExprView::Literal(nth(s, i)))
}

proof fn lemma_plain_tokens(s: Seq<char>, pos: int)
    requires
        all_plain(s),
        0 <= pos <= s.len(),
    ensures
        tokens_from(s, pos) == literal_tokens(s, pos),
        dangling_escape(s, pos) is None,
    decreases s.len() - pos,
{
    if pos < s.len() {
        assert(is_plain(s[pos]));
        assert(token_at(s, pos) == (TokenView::Literal(nth(s, pos)), pos + 1));
        lemma_plain_tokens(s, pos + 1);
    }
}

proof fn lemma_literal_tokens(s: Seq<char>, pos: int)
    requires
        0 <= pos <= s.len(),
    ensures
        literal_tokens(s, pos).len() == s.len() - pos + 1,
        forall|i: int|
            0 <= i < s.len() - pos ==> #[trigger] literal_tokens(s, pos)[i] == TokenView::Literal(
                nth(s, pos + i),
            ),
        literal_tokens(s, pos)[s.len() - pos] == TokenView::Eof,
    decreases s.len() - pos,
{
    if pos < s.len() {
        lemma_literal_tokens(s, pos + 1);
        let rest = literal_tokens(s, pos + 1);
        let all = literal_tokens(s, pos);
        assert(all =~= seq![TokenView::Literal(nth(s, pos))] + rest);
        assert forall|i: int| 0 <= i < s.len() - pos implies #[trigger] all[i] == TokenView::Literal(
            nth(s, pos + i),
        ) by {
            if i > 0 {
                assert(all[i] == rest[i - 1]);
            }
        }
        assert(all[s.len() - pos] == rest[s.len() - pos - 1]);
    }
}

proof fn lemma_literal_sequence(s: Seq<char>, ts: Seq<TokenView>, pos: int)
    requires
        all_plain(s),
        0 <= pos <= s.len(),
        ts.len() == s.len() + 1,
        forall|i: int| 0 <= i < s.len() ==> #[trigger] ts[i] == TokenView::Literal(nth(s, i)),
        ts[s.len() as int] == TokenView::Eof,
    ensures
        sequence_rest(ts, pos, literals(s, pos)) == Ok::<(ExprView, int), ParseErrorView>(
            (sequence_of(literals(s, s.len() as int)), s.len() as int),
        ),
    decreases s.len() - pos,
{
    if pos < s.len() {
        let c = nth(s, pos);
        assert(tok(ts, pos) == TokenView::Literal(c));
        assert(!ends_sequence(tok(ts, pos)));
        assert(simple_atom(tok(ts, pos)) == Some(ExprView::Literal(c)));
        assert(atom_at(ts, pos) == Ok::<(ExprView, int), ParseErrorView>(
            (ExprView::Literal(c), pos + 1),
        ));
        if pos + 1 < s.len() {
            assert(tok(ts, pos + 1) == TokenView::Literal(nth(s, pos + 1)));
            assert(is_plain(s[pos + 1]));
        } else {
            assert(tok(ts, pos + 1) == TokenView::Eof);
        }
        assert(quantifier_at(ts, pos + 1) == Ok::<(Option<crate::ast::Quantifier>, int), ParseErrorView>(
            (None, pos + 1),
        ));
        assert(quantified_at(ts, pos) == Ok::<(ExprView, int), ParseErrorView>(
            (ExprView::Literal(c), pos + 1),
        ));
        assert(literals(s, pos + 1) =~= literals(s, pos).push(ExprView::Literal(c)));
        lemma_literal_sequence(s, ts, pos + 1);
    } else {
        assert(tok(ts, pos) == TokenView::Eof);
    }
}

proof fn lemma_literal_text(s: Seq<char>, n: nat)
    requires
        all_plain(s),
        n <= s.len(),
    ensures
        sequence_text(literals(s, s.len() as int), n) == s.take(n as int),
    decreases n,
{
    let items = literals(s, s.len() as int);
    if n > 0 {
        lemma_literal_text(s, (n - 1) as nat);
        assert(items[n - 1] == ExprView::Literal(nth(s, n - 1)));
        assert(is_plain(s[n - 1]));
        assert(regex_text(items[n - 1]) == seq![s[n - 1]]);
        assert(s.take(n as int) =~= s.take(n - 1) + seq![s[n - 1]]);
    } else {
        assert(s.take(0) =~= Seq::<char>::empty());
    }
}

/// A pattern of plain characters is the sequence of its characters, and
/// reads in conventional notation as it is written.
pub proof fn lemma_plain_pattern(s: Seq<char>)
    requires
        all_plain(s),
    ensures
        pattern_ast(s) == Ok::<ExprView, ParseErrorView>(
            sequence_of(literals(s, s.len() as int)),
        ),
        transpiled(s) == Ok::<Seq<char>, crate::error::RegexErrorView>(s),
{
    let n = s.len() as int;
    lemma_plain_tokens(s, 0);
    lemma_literal_tokens(s, 0);
    let ts = tokens_of(s);
    assert(literals(s, 0) =~= Seq::<ExprView>::empty());
    lemma_literal_sequence(s, ts, 0);
    let whole = sequence_of(literals(s, n));
    assert(tok(ts, n) == TokenView::Eof);
    assert(alternation_rest(ts, n, seq![whole]) == Ok::<(ExprView, int), ParseErrorView>(
        (whole, n),
    ));
    assert(alternation_at(ts, 0) == Ok::<(ExprView, int), ParseErrorView>((whole, n)));
    assert(parse_from(ts, 0) == Ok::<ExprView, ParseErrorView>(whole));
    lemma_literal_text(s, s.len());
    assert(s.take(n) =~= s);
    let items = literals(s, n);
    if items.len() == 0 {
        assert(s =~= Seq::<char>::empty());
    } else if items.len() == 1 {
        assert(items[0] == ExprView::Literal(nth(s, 0)));
        assert(is_plain(s[0]));
        assert(regex_text(items[0]) == seq![s[0]]);
        assert(s =~= seq![s[0]]);
    }
    assert(regex_text(whole) == s);
}

/// Parsing what transpiling gives is parsing the pattern itself: this
/// holds of every pattern that is read without an error and names no
/// group. What transpiling gives is read without an error in its turn, to
/// the same syntax tree.
pub proof fn lemma_round_trip(s: Seq<char>)
    requires
        pattern_tree(s) is Ok,
        no_names(tokens_of(s)),
    ensures
        transpiled(s) is Ok,
        pattern_ast(transpiled(s)->Ok_0) == pattern_ast(s),
        pattern_tree(transpiled(s)->Ok_0) == pattern_tree(s),
{
    lemma_tokens_end_in_eof(s, 0);
    lemma_tokens_lexed(s, 0);
    lemma_any_tokens_round_trip(tokens_of(s));
}

} // verus!
