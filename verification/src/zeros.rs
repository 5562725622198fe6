//! A zero that the number of a counted quantifier does not need changes
//! nothing: the tokens without it parse as the tokens with it.

use crate::ast::{ClassItem, ExprView, Quantifier, regex_text};
use crate::error::ParseErrorView;
use crate::grammar::{
    alternation_at, alternation_rest, atom_at, class_at, class_item_at, class_items_at,
    counted_at, digit_tokens, digits_of, ends_sequence, is_digit_token, number_at, opens_group,
    parse_from, pattern_ast, quantified_at, quantifier_at, sequence_rest, simple_atom, tok,
    well_ended,
};
use crate::lexer::{TokenView, dangling_escape};
use crate::normal::{lemma_tokens_round_trip, no_names};
use crate::reread::{lexed, parts_from, rereadable};
use crate::spelling::{counts_as_written, lemma_digit_tokens_hold};
use crate::text::decimal_value;
use vstd::prelude::*;

verus! {

/// At place `i` of `ts` stands a zero in front of the digits of a number
/// behind a `{` or a `,`.
pub open spec fn needless_zero(ts: Seq<TokenView>, i: int) -> bool {
    &&& 1 <= i < ts.len()
    &&& (ts[i - 1] is LeftBrace || ts[i - 1] is Comma)
    &&& ts[i] == TokenView::Literal('0')
    &&& is_digit_token(tok(ts, i + 1))
}

/// The place in `ts` without token `i` of what stands at place `p` of `ts`.
pub open spec fn behind(i: int, p: int) -> int {
    if p > i {
        p - 1
    } else {
        p
    }
}

proof fn lemma_kept(ts: Seq<TokenView>, i: int, q: int)
    requires
        needless_zero(ts, i),
    ensures
        ts.remove(i).len() == ts.len() - 1,
        q != i ==> tok(ts.remove(i), behind(i, q)) == tok(ts, q),
        tok(ts.remove(i), i) == tok(ts, i + 1),
{
}

proof fn lemma_leading_zero(d: Seq<char>)
    ensures
        decimal_value(seq!['0'] + d) == decimal_value(d),
    decreases d.len(),
{
    let s = seq!['0'] + d;
    if d.len() == 0 {
        assert(s.drop_last() =~= Seq::<char>::empty());
        assert(decimal_value(s.drop_last()) == 0);
        assert(s.last() == '0');
    } else {
        lemma_leading_zero(d.drop_last());
        assert(s.drop_last() =~= seq!['0'] + d.drop_last());
        assert(s.last() == d.last());
    }
}

proof fn lemma_digits_behind(ts: Seq<TokenView>, i: int, q: int)
    requires
        needless_zero(ts, i),
        i < q <= ts.len(),
    ensures
        digit_tokens(ts.remove(i), q - 1) == digit_tokens(ts, q),
        digits_of(ts.remove(i), q - 1, digit_tokens(ts, q)) == digits_of(
            ts,
            q,
            digit_tokens(ts, q),
        ),
    decreases ts.len() - q,
{
    let v = ts.remove(i);
    lemma_kept(ts, i, q);
    if q < ts.len() && is_digit_token(ts[q]) {
        lemma_digits_behind(ts, i, q + 1);
    }
    let n = digit_tokens(ts, q);
    assert forall|k: int| 0 <= k < n implies #[trigger] tok(v, q - 1 + k) == tok(ts, q + k) by {
        lemma_kept(ts, i, q + k);
    }
    assert(digits_of(v, q - 1, n) =~= digits_of(ts, q, n));
}

proof fn lemma_digits_before(ts: Seq<TokenView>, i: int, q: int)
    requires
        needless_zero(ts, i),
        0 <= q < i,
    ensures
        digit_tokens(ts.remove(i), q) == digit_tokens(ts, q),
        q + digit_tokens(ts, q) < i,
        digits_of(ts.remove(i), q, digit_tokens(ts, q)) == digits_of(ts, q, digit_tokens(ts, q)),
    decreases i - q,
{
    let v = ts.remove(i);
    lemma_kept(ts, i, q);
    if q < i - 1 && is_digit_token(ts[q]) {
        lemma_digits_before(ts, i, q + 1);
    }
    let n = digit_tokens(ts, q);
    assert forall|k: int| 0 <= k < n implies #[trigger] tok(v, q + k) == tok(ts, q + k) by {
        lemma_kept(ts, i, q + k);
    }
    assert(digits_of(v, q, n) =~= digits_of(ts, q, n));
}

proof fn lemma_number_without(ts: Seq<TokenView>, i: int, q: int)
    requires
        needless_zero(ts, i),
        0 <= q <= ts.len(),
        number_at(ts, q) is Ok,
    ensures
        number_at(ts.remove(i), behind(i, q)) == Ok::<(u32, int), ParseErrorView>(
            (number_at(ts, q)->Ok_0.0, behind(i, number_at(ts, q)->Ok_0.1)),
        ),
        q < number_at(ts, q)->Ok_0.1 <= ts.len(),
        number_at(ts, q)->Ok_0.1 != i,
{
    let v = ts.remove(i);
    lemma_digit_tokens_hold(ts, q);
    let n = digit_tokens(ts, q);
    assert(n >= 1);
    assert(is_digit_token(ts[q + (n - 1)]));
    if q < i {
        lemma_digits_before(ts, i, q);
    } else if q > i {
        lemma_digits_behind(ts, i, q);
    } else {
        lemma_digits_behind(ts, i, i + 1);
        let m = digit_tokens(ts, i + 1);
        assert(n == m + 1);
        assert(digits_of(ts, i, n) =~= seq!['0'] + digits_of(ts, i + 1, m));
        lemma_leading_zero(digits_of(ts, i + 1, m));
    }
}

proof fn lemma_quantifier_without(ts: Seq<TokenView>, i: int, pos: int)
    requires
        needless_zero(ts, i),
        0 <= pos <= ts.len(),
        pos != i,
        quantifier_at(ts, pos) is Ok,
    ensures
        quantifier_at(ts.remove(i), behind(i, pos)) == Ok::<(Option<Quantifier>, int), ParseErrorView>(
            (quantifier_at(ts, pos)->Ok_0.0, behind(i, quantifier_at(ts, pos)->Ok_0.1)),
        ),
        pos <= quantifier_at(ts, pos)->Ok_0.1 <= ts.len(),
        quantifier_at(ts, pos)->Ok_0.1 != i,
{
    let v = ts.remove(i);
    lemma_kept(ts, i, pos);
    if tok(ts, pos) is LeftBrace {
        lemma_counted_without(ts, i, pos + 1);
    }
}

proof fn lemma_counted_without(ts: Seq<TokenView>, i: int, pos: int)
    requires
        needless_zero(ts, i),
        1 <= pos <= ts.len(),
        ts[pos - 1] is LeftBrace,
        counted_at(ts, pos) is Ok,
    ensures
        counted_at(ts.remove(i), behind(i, pos - 1) + 1) == Ok::<(Quantifier, int), ParseErrorView>(
            (counted_at(ts, pos)->Ok_0.0, behind(i, counted_at(ts, pos)->Ok_0.1)),
        ),
        pos < counted_at(ts, pos)->Ok_0.1 <= ts.len(),
        counted_at(ts, pos)->Ok_0.1 != i,
{
    let v = ts.remove(i);
    lemma_number_without(ts, i, pos);
    assert(behind(i, pos - 1) + 1 == behind(i, pos));
    let (min, p) = number_at(ts, pos)->Ok_0;
    lemma_kept(ts, i, p);
    lemma_kept(ts, i, p + 1);
    if tok(ts, p) is Comma {
        if tok(ts, p + 1) is RightBrace {
            assert(p + 1 != i);
            assert(behind(i, p + 1) == behind(i, p) + 1);
            lemma_kept(ts, i, p + 2);
            lemma_kept(ts, i, p + 3);
        } else {
            lemma_number_without(ts, i, p + 1);
            assert(behind(i, p + 1) == behind(i, p) + 1);
            if p + 1 == i {
                assert(!(tok(v, i) is RightBrace));
            }
            let (max, close) = number_at(ts, p + 1)->Ok_0;
            lemma_kept(ts, i, close);
            lemma_kept(ts, i, close + 1);
            lemma_kept(ts, i, close + 2);
        }
    } else {
        lemma_kept(ts, i, p + 2);
    }
}

proof fn lemma_class_item_without(ts: Seq<TokenView>, i: int, pos: int)
    requires
        needless_zero(ts, i),
        0 <= pos < ts.len(),
        pos != i,
        class_item_at(ts, pos) is Ok,
    ensures
        class_item_at(ts.remove(i), behind(i, pos)) == Ok::<(ClassItem, int), ParseErrorView>(
            (class_item_at(ts, pos)->Ok_0.0, behind(i, class_item_at(ts, pos)->Ok_0.1)),
        ),
        pos < class_item_at(ts, pos)->Ok_0.1 <= ts.len(),
        class_item_at(ts, pos)->Ok_0.1 != i,
{
    let v = ts.remove(i);
    lemma_kept(ts, i, pos);
    lemma_kept(ts, i, pos + 1);
    lemma_kept(ts, i, pos + 2);
    lemma_kept(ts, i, pos + 3);
    assert(pos + 1 != i);
    assert(behind(i, pos + 1) == behind(i, pos) + 1);
}

proof fn lemma_class_items_without(ts: Seq<TokenView>, i: int, pos: int, acc: Seq<ClassItem>)
    requires
        needless_zero(ts, i),
        0 <= pos <= ts.len(),
        pos != i,
        class_items_at(ts, pos, acc) is Ok,
    ensures
        class_items_at(ts.remove(i), behind(i, pos), acc) == Ok::<
            (Seq<ClassItem>, int),
            ParseErrorView,
        >((class_items_at(ts, pos, acc)->Ok_0.0, behind(i, class_items_at(ts, pos, acc)->Ok_0.1))),
        pos <= class_items_at(ts, pos, acc)->Ok_0.1 <= ts.len(),
        class_items_at(ts, pos, acc)->Ok_0.1 != i,
    decreases ts.len() - pos,
{
    let v = ts.remove(i);
    lemma_kept(ts, i, pos);
    if !(tok(ts, pos) is RightBracket || tok(ts, pos) is Eof || pos >= ts.len()) {
        lemma_class_item_without(ts, i, pos);
        let (item, p) = class_item_at(ts, pos)->Ok_0;
        lemma_class_items_without(ts, i, p, acc.push(item));
    }
}

proof fn lemma_class_without(ts: Seq<TokenView>, i: int, pos: int)
    requires
        needless_zero(ts, i),
        1 <= pos <= ts.len(),
        ts[pos - 1] is LeftBracket,
        class_at(ts, pos) is Ok,
    ensures
        class_at(ts.remove(i), behind(i, pos)) == Ok::<(ExprView, int), ParseErrorView>(
            (class_at(ts, pos)->Ok_0.0, behind(i, class_at(ts, pos)->Ok_0.1)),
        ),
        pos < class_at(ts, pos)->Ok_0.1 <= ts.len(),
        class_at(ts, pos)->Ok_0.1 != i,
{
    let v = ts.remove(i);
    assert(pos != i);
    lemma_kept(ts, i, pos);
    let first = if tok(ts, pos) is Caret {
        pos + 1
    } else {
        pos
    };
    assert(first != i);
    assert(behind(i, first) == if tok(ts, pos) is Caret {
        behind(i, pos) + 1
    } else {
        behind(i, pos)
    });
    lemma_class_items_without(ts, i, first, Seq::empty());
    let (items, p) = class_items_at(ts, first, Seq::empty())->Ok_0;
    lemma_kept(ts, i, p);
    assert(p + 1 != i);
}

proof fn lemma_no_atom(t: TokenView)
    requires
        t is LeftBrace || t is Comma,
    ensures
        simple_atom(t) is None,
        !opens_group(t),
        !(t is LeftBracket),
{
}

proof fn lemma_atom_without(ts: Seq<TokenView>, i: int, pos: int)
    requires
        needless_zero(ts, i),
        0 <= pos < ts.len(),
        pos != i,
        atom_at(ts, pos) is Ok,
    ensures
        atom_at(ts.remove(i), behind(i, pos)) == Ok::<(ExprView, int), ParseErrorView>(
            (atom_at(ts, pos)->Ok_0.0, behind(i, atom_at(ts, pos)->Ok_0.1)),
        ),
        pos < atom_at(ts, pos)->Ok_0.1 <= ts.len(),
        atom_at(ts, pos)->Ok_0.1 != i,
    decreases ts.len() - pos, 0nat,
{
    let v = ts.remove(i);
    let t = tok(ts, pos);
    lemma_kept(ts, i, pos);
    assert(tok(v, behind(i, pos)) == t);
    assert(0 <= behind(i, pos) < v.len());
    if pos + 1 == i {
        lemma_no_atom(t);
    }
    assert(pos + 1 != i);
    assert(behind(i, pos + 1) == behind(i, pos) + 1);
    if simple_atom(t) is Some {
        assert(atom_at(ts, pos) == Ok::<(ExprView, int), ParseErrorView>(
            (simple_atom(t)->Some_0, pos + 1),
        ));
        assert(atom_at(v, behind(i, pos)) == Ok::<(ExprView, int), ParseErrorView>(
            (simple_atom(t)->Some_0, behind(i, pos) + 1),
        ));
    } else if opens_group(t) {
        lemma_alternation_without(ts, i, pos + 1);
        let (inner, p) = alternation_at(ts, pos + 1)->Ok_0;
        lemma_kept(ts, i, p);
        assert(tok(ts, p) is RightParen);
        assert(p + 1 != i);
        assert(behind(i, p + 1) == behind(i, p) + 1);
    } else {
        assert(t is LeftBracket);
        lemma_class_without(ts, i, pos + 1);
    }
}

proof fn lemma_quantified_without(ts: Seq<TokenView>, i: int, pos: int)
    requires
        needless_zero(ts, i),
        0 <= pos < ts.len(),
        pos != i,
        quantified_at(ts, pos) is Ok,
    ensures
        quantified_at(ts.remove(i), behind(i, pos)) == Ok::<(ExprView, int), ParseErrorView>(
            (quantified_at(ts, pos)->Ok_0.0, behind(i, quantified_at(ts, pos)->Ok_0.1)),
        ),
        pos < quantified_at(ts, pos)->Ok_0.1 <= ts.len(),
        quantified_at(ts, pos)->Ok_0.1 != i,
    decreases ts.len() - pos, 1nat,
{
    lemma_atom_without(ts, i, pos);
    let (atom, p) = atom_at(ts, pos)->Ok_0;
    lemma_quantifier_without(ts, i, p);
}

proof fn lemma_sequence_without(ts: Seq<TokenView>, i: int, pos: int, acc: Seq<ExprView>)
    requires
        needless_zero(ts, i),
        0 <= pos <= ts.len(),
        pos != i,
        sequence_rest(ts, pos, acc) is Ok,
    ensures
        sequence_rest(ts.remove(i), behind(i, pos), acc) == Ok::<(ExprView, int), ParseErrorView>(
            (sequence_rest(ts, pos, acc)->Ok_0.0, behind(i, sequence_rest(ts, pos, acc)->Ok_0.1)),
        ),
        pos <= sequence_rest(ts, pos, acc)->Ok_0.1 <= ts.len(),
        sequence_rest(ts, pos, acc)->Ok_0.1 != i,
    decreases ts.len() - pos, 2nat,
{
    lemma_kept(ts, i, pos);
    if !ends_sequence(tok(ts, pos)) {
        lemma_quantified_without(ts, i, pos);
        let (item, p) = quantified_at(ts, pos)->Ok_0;
        lemma_sequence_without(ts, i, p, acc.push(item));
    }
}

proof fn lemma_alternation_rest_without(ts: Seq<TokenView>, i: int, pos: int, acc: Seq<ExprView>)
    requires
        needless_zero(ts, i),
        0 <= pos <= ts.len(),
        pos != i,
        alternation_rest(ts, pos, acc) is Ok,
    ensures
        alternation_rest(ts.remove(i), behind(i, pos), acc) == Ok::<(ExprView, int), ParseErrorView>(
            (
                alternation_rest(ts, pos, acc)->Ok_0.0,
                behind(i, alternation_rest(ts, pos, acc)->Ok_0.1),
            ),
        ),
        pos <= alternation_rest(ts, pos, acc)->Ok_0.1 <= ts.len(),
        alternation_rest(ts, pos, acc)->Ok_0.1 != i,
    decreases ts.len() - pos, 3nat,
{
    lemma_kept(ts, i, pos);
    if tok(ts, pos) is Pipe {
        assert(pos + 1 != i);
        assert(behind(i, pos + 1) == behind(i, pos) + 1);
        lemma_sequence_without(ts, i, pos + 1, Seq::empty());
        let (next, p) = sequence_rest(ts, pos + 1, Seq::empty())->Ok_0;
        lemma_alternation_rest_without(ts, i, p, acc.push(next));
    }
}

/// An alternation parses from the tokens without a needless zero as it
/// does from the tokens with it.
pub proof fn lemma_alternation_without(ts: Seq<TokenView>, i: int, pos: int)
    requires
        needless_zero(ts, i),
        0 <= pos <= ts.len(),
        pos != i,
        alternation_at(ts, pos) is Ok,
    ensures
        alternation_at(ts.remove(i), behind(i, pos)) == Ok::<(ExprView, int), ParseErrorView>(
            (alternation_at(ts, pos)->Ok_0.0, behind(i, alternation_at(ts, pos)->Ok_0.1)),
        ),
        pos <= alternation_at(ts, pos)->Ok_0.1 <= ts.len(),
        alternation_at(ts, pos)->Ok_0.1 != i,
    decreases ts.len() - pos, 4nat,
{
    lemma_sequence_without(ts, i, pos, Seq::empty());
    let (first, p) = sequence_rest(ts, pos, Seq::empty())->Ok_0;
    lemma_alternation_rest_without(ts, i, p, seq![first]);
}

proof fn lemma_without_lexed(ts: Seq<TokenView>, i: int)
    requires
        needless_zero(ts, i),
        well_ended(ts),
        lexed(ts),
        no_names(ts),
    ensures
        well_ended(ts.remove(i)),
        lexed(ts.remove(i)),
        no_names(ts.remove(i)),
{
    let v = ts.remove(i);
    assert(i < ts.len() - 1);
    assert forall|k: int| 0 <= k < v.len() implies {
        &&& (#[trigger] v[k] is Eof <==> k == v.len() - 1)
        &&& (rereadable(v[k]) || v[k] is Eof || v[k] is Colon || v[k] is NamedGroupStart)
        &&& parts_from(v[k], tok(v, k + 1))
        &&& !(v[k] is NamedGroupStart)
    } by {
        if k < i {
            assert(v[k] == ts[k]);
            assert(parts_from(ts[k], tok(ts, k + 1)));
            if k + 1 < i {
                assert(tok(v, k + 1) == tok(ts, k + 1));
            }
        } else {
            assert(v[k] == ts[k + 1]);
            assert(parts_from(ts[k + 1], tok(ts, k + 2)));
            lemma_kept(ts, i, k + 2);
        }
    }
    assert(v.last() == v[v.len() - 1]);
}

/// A token sequence as the lexer makes it, without named groups, that
/// parses: what is written for its syntax tree parses to that tree.
pub proof fn lemma_any_tokens_round_trip(ts: Seq<TokenView>)
    requires
        well_ended(ts),
        lexed(ts),
        no_names(ts),
        parse_from(ts, 0) is Ok,
    ensures
        pattern_ast(regex_text(parse_from(ts, 0)->Ok_0)) == parse_from(ts, 0),
        dangling_escape(regex_text(parse_from(ts, 0)->Ok_0), 0) is None,
    decreases ts.len(),
{
    if counts_as_written(ts) {
        lemma_tokens_round_trip(ts);
    } else {
        let j = choose|j: int|
            0 <= j < ts.len() && (#[trigger] ts[j] is LeftBrace || ts[j] is Comma) && tok(ts, j + 1)
                == TokenView::Literal('0') && is_digit_token(tok(ts, j + 2));
        let i = j + 1;
        assert(needless_zero(ts, i));
        let v = ts.remove(i);
        lemma_alternation_without(ts, i, 0);
        let (e, p) = alternation_at(ts, 0)->Ok_0;
        lemma_kept(ts, i, p);
        assert(tok(ts, p) is Eof);
        assert(parse_from(v, 0) == Ok::<ExprView, ParseErrorView>(e));
        lemma_without_lexed(ts, i);
        lemma_any_tokens_round_trip(v);
    }
}

} // verus!
