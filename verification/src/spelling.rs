//! Patterns that are written the way the conventional notation writes them
//! read in that notation as they stand: every token is spelled as the
//! notation spells it, a backslash stands before a character only where it
//! is needed, and no group has a name.

use crate::ast::{
    CharacterClassView, ClassItem, ExprView, Quantifier, alternation_text, class_item_text,
    class_items_text, class_text, quantifier_text, regex_text, sequence_text,
};
use crate::error::RegexErrorView;
use crate::grammar::{
    alternation_at, alternation_of, alternation_rest, atom_at, class_at, class_item_at,
    class_items_at, counted_at, digit_tokens, digits_of, ends_sequence, is_digit_token, number_at,
    opens_group, parse_from, pattern_ast, quantified_at, quantifier_at, sequence_of,
    sequence_rest, simple_atom, tok, well_ended, with_laziness, wrap_group,
};
use crate::lexer::{
    TokenView, dangling_escape, lemma_token_advances, lemma_tokens_end_in_eof, token_at,
    tokens_from, tokens_of,
};
use crate::text::{
    all_digits, decimal, decimal_value, digit_char, digit_value, is_digit, is_plain, signed_decimal,
};
use crate::transpiler::transpiled;
use vstd::prelude::*;

verus! {

/// How the conventional notation writes the token `t`.
pub open spec fn written(t: TokenView) -> Seq<char> {
    match t {
        TokenView::LeftParen => seq!['('],
        TokenView::RightParen => seq![')'],
        TokenView::LeftBracket => seq!['['],
        TokenView::RightBracket => seq![']'],
        TokenView::LeftBrace => seq!['{'],
        TokenView::RightBrace => seq!['}'],
        TokenView::Colon => seq![':'],
        TokenView::Comma => seq![','],
        TokenView::Pipe => seq!['|'],
        TokenView::Caret => seq!['^'],
        TokenView::Dollar => seq!['$'],
        TokenView::Dot => seq!['.'],
        TokenView::Star => seq!['*'],
        TokenView::StarLazy => seq!['*', '?'],
        TokenView::Plus => seq!['+'],
        TokenView::PlusLazy => seq!['+', '?'],
        TokenView::Question => seq!['?'],
        TokenView::NonCapturing => "(?:"@,
        TokenView::NamedGroupStart(name) => seq!['('] + name + seq![':'],
        TokenView::Escape(c) => seq!['\\', c],
        TokenView::BackrefNumber(n) => seq!['\\'] + decimal(n as nat),
        TokenView::BackrefRelative(n) => "\\g{"@ + signed_decimal(n as int) + seq!['}'],
        TokenView::BackrefName(name) => "\\g{"@ + name + seq!['}'],
        TokenView::WordChar => seq!['\\', 'w'],
        TokenView::NonWordChar => seq!['\\', 'W'],
        TokenView::Digit => seq!['\\', 'd'],
        TokenView::NonDigit => seq!['\\', 'D'],
        TokenView::Whitespace => seq!['\\', 's'],
        TokenView::NonWhitespace => seq!['\\', 'S'],
        TokenView::WordBoundary => "\\b"@,
        TokenView::NonWordBoundary => "\\B"@,
        TokenView::Literal(c) => seq![c],
        TokenView::Eof => Seq::empty(),
    }
}

/// From `pos` on, every token of `s` stands in `s` as [`written`] writes
/// it, none of them opens a named group, and none is a plain character
/// behind a backslash.
pub open spec fn as_written(s: Seq<char>, pos: int) -> bool
    decreases s.len() - pos,
{
    let (t, behind) = token_at(s, pos);
    if t is Eof || behind <= pos || pos < 0 || behind > s.len() {
        true
    } else {
        &&& (t is Escape ==> !is_plain(t->Escape_0))
        &&& !(t is NamedGroupStart)
        &&& s.subrange(pos, behind) == written(t)
        &&& as_written(s, behind)
    }
}

/// Token `i` of `ts` stands inside a character class: behind a `[` that no
/// `]` has closed.
pub open spec fn inside(ts: Seq<TokenView>, i: int) -> bool
    decreases i,
{
    if i <= 0 || i > ts.len() {
        false
    } else if ts[i - 1] is LeftBracket {
        true
    } else if ts[i - 1] is RightBracket {
        false
    } else {
        inside(ts, i - 1)
    }
}

/// No number behind a `{` or a `,` starts with a zero that another digit
/// follows.
pub open spec fn counts_as_written(ts: Seq<TokenView>) -> bool {
    forall|i: int|
        0 <= i < ts.len() && (#[trigger] ts[i] is LeftBrace || ts[i] is Comma) && tok(ts, i + 1)
            == TokenView::Literal('0') ==> !is_digit_token(tok(ts, i + 2))
}

/// None of `ts` opens a named group, a literal is a plain character, and
/// a plain character stands behind a backslash in a character class only.
pub open spec fn unnamed(ts: Seq<TokenView>) -> bool {
    forall|i: int|
        0 <= i < ts.len() ==> {
            &&& !(#[trigger] ts[i] is NamedGroupStart)
            &&& (ts[i] is Literal ==> is_plain(ts[i]->Literal_0))
            &&& (ts[i] is Escape && is_plain(ts[i]->Escape_0) ==> inside(ts, i))
        }
}

/// The tokens `ts` as they are written, one after the other.
pub open spec fn spelling(ts: Seq<TokenView>) -> Seq<char>
    decreases ts.len(),
{
    if ts.len() == 0 {
        Seq::empty()
    } else {
        spelling(ts.drop_last()) + written(ts.last())
    }
}

/// The tokens of `ts` from `i` up to `j` as they are written.
pub open spec fn stretch(ts: Seq<TokenView>, i: int, j: int) -> Seq<char>
    recommends
        0 <= i <= j <= ts.len(),
{
    spelling(ts.subrange(i, j))
}

pub proof fn lemma_spelling_joins(a: Seq<TokenView>, b: Seq<TokenView>)
    ensures
        spelling(a + b) == spelling(a) + spelling(b),
    decreases b.len(),
{
    if b.len() == 0 {
        assert(a + b =~= a);
        assert(spelling(a) + spelling(b) =~= spelling(a));
    } else {
        lemma_spelling_joins(a, b.drop_last());
        assert((a + b).drop_last() =~= a + b.drop_last());
        assert((a + b).last() == b.last());
        assert(spelling(a + b) == spelling(a + b.drop_last()) + written(b.last()));
        assert(spelling(a + b) =~= spelling(a) + spelling(b));
    }
}

pub proof fn lemma_stretch_joins(ts: Seq<TokenView>, i: int, j: int, k: int)
    requires
        0 <= i <= j <= k <= ts.len(),
    ensures
        stretch(ts, i, k) == stretch(ts, i, j) + stretch(ts, j, k),
{
    assert(ts.subrange(i, k) =~= ts.subrange(i, j) + ts.subrange(j, k));
    lemma_spelling_joins(ts.subrange(i, j), ts.subrange(j, k));
}

pub proof fn lemma_stretch_one(ts: Seq<TokenView>, i: int)
    requires
        0 <= i < ts.len(),
    ensures
        stretch(ts, i, i + 1) == written(ts[i]),
        stretch(ts, i, i) == Seq::<char>::empty(),
{
    let one = ts.subrange(i, i + 1);
    assert(one.drop_last() =~= Seq::<TokenView>::empty());
    assert(one.last() == ts[i]);
    assert(spelling(one) == spelling(one.drop_last()) + written(ts[i]));
    assert(spelling(one.drop_last()) =~= Seq::<char>::empty());
    assert(spelling(one) =~= written(ts[i]));
    assert(ts.subrange(i, i) =~= Seq::<TokenView>::empty());
}

pub proof fn lemma_stretch_grows(ts: Seq<TokenView>, i: int, j: int)
    requires
        0 <= i <= j < ts.len(),
    ensures
        stretch(ts, i, j + 1) == stretch(ts, i, j) + written(ts[j]),
{
    lemma_stretch_joins(ts, i, j, j + 1);
    lemma_stretch_one(ts, j);
}

proof fn lemma_lexed(s: Seq<char>, pos: int)
    requires
        0 <= pos <= s.len(),
        as_written(s, pos),
    ensures
        spelling(tokens_from(s, pos)) == s.subrange(pos, s.len() as int),
        forall|i: int|
            0 <= i < tokens_from(s, pos).len() ==> {
                &&& !(#[trigger] tokens_from(s, pos)[i] is NamedGroupStart)
                &&& (tokens_from(s, pos)[i] is Literal ==> is_plain(
                    tokens_from(s, pos)[i]->Literal_0,
                ))
                &&& !(tokens_from(s, pos)[i] is Escape && is_plain(
                    tokens_from(s, pos)[i]->Escape_0,
                ))
            },
    decreases s.len() - pos,
{
    let (t, behind) = token_at(s, pos);
    lemma_token_advances(s, pos);
    let one = seq![t];
    assert(one.drop_last() =~= Seq::<TokenView>::empty());
    assert(spelling(one) == spelling(one.drop_last()) + written(t));
    assert(spelling(one.drop_last()) =~= Seq::<char>::empty());
    assert(spelling(one) =~= written(t));
    if t is Eof {
        assert(pos == s.len());
        assert(s.subrange(pos, s.len() as int) =~= Seq::<char>::empty());
    } else {
        lemma_lexed(s, behind);
        let rest = tokens_from(s, behind);
        lemma_spelling_joins(one, rest);
        assert(s.subrange(pos, s.len() as int) =~= s.subrange(pos, behind) + s.subrange(
            behind,
            s.len() as int,
        ));
        let all = tokens_from(s, pos);
        assert(all == one + rest);
        assert forall|i: int| 0 <= i < all.len() implies {
            &&& !(#[trigger] all[i] is NamedGroupStart)
            &&& (all[i] is Literal ==> is_plain(all[i]->Literal_0))
            &&& !(all[i] is Escape && is_plain(all[i]->Escape_0))
        } by {
            if i > 0 {
                assert(all[i] == rest[i - 1]);
            }
        }
    }
}

proof fn lemma_no_dangling_escape(s: Seq<char>, pos: int)
    requires
        0 <= pos <= s.len(),
        as_written(s, pos),
    ensures
        dangling_escape(s, pos) is None,
    decreases s.len() - pos,
{
    let (t, behind) = token_at(s, pos);
    lemma_token_advances(s, pos);
    if !(t is Eof) {
        if s[pos] == '\\' && pos + 1 == s.len() {
            assert(t == TokenView::Escape('\0'));
            assert(is_plain('\0'));
        }
        lemma_no_dangling_escape(s, behind);
    }
}

proof fn lemma_digit_char(c: char)
    requires
        is_digit(c),
    ensures
        digit_value(c) < 10,
        digit_char(digit_value(c)) == c,
{
}

proof fn lemma_value_of_digits(s: Seq<char>)
    requires
        all_digits(s),
        s.len() >= 1,
        s[0] != '0',
    ensures
        decimal_value(s) >= 1,
    decreases s.len(),
{
    if s.len() > 1 {
        assert(all_digits(s.drop_last()));
        lemma_value_of_digits(s.drop_last());
    } else {
        assert(s.drop_last().len() == 0);
        assert(decimal_value(s.drop_last()) == 0);
        assert(is_digit(s[0]));
        assert(s.last() == s[0]);
    }
}

/// A digit string without a needless zero in front is the numeral of the
/// number that it denotes.
pub proof fn lemma_numeral(s: Seq<char>)
    requires
        all_digits(s),
        s.len() >= 1,
        s.len() > 1 ==> s[0] != '0',
    ensures
        decimal(decimal_value(s)) == s,
    decreases s.len(),
{
    let init = s.drop_last();
    let last = s.last();
    assert(is_digit(last));
    lemma_digit_char(last);
    if s.len() == 1 {
        assert(decimal_value(init) == 0);
        assert(decimal_value(s) == digit_value(last));
        assert(decimal(decimal_value(s)) =~= s);
    } else {
        assert(all_digits(init));
        assert(init[0] == s[0]);
        lemma_value_of_digits(init);
        lemma_numeral(init);
        let v = decimal_value(s);
        assert(v == decimal_value(init) * 10 + digit_value(last));
        assert(v >= 10);
        assert(v / 10 == decimal_value(init) && v % 10 == digit_value(last)) by (nonlinear_arith)
            requires
                v == decimal_value(init) * 10 + digit_value(last),
                digit_value(last) < 10,
        ;
        assert(decimal(v) == decimal(v / 10).push(digit_char(v % 10)));
        assert(decimal(v) =~= s);
    }
}

pub proof fn lemma_digit_tokens_hold(ts: Seq<TokenView>, pos: int)
    requires
        0 <= pos <= ts.len(),
    ensures
        pos + digit_tokens(ts, pos) <= ts.len(),
        forall|i: int|
            0 <= i < digit_tokens(ts, pos) ==> is_digit_token(#[trigger] ts[pos + i]),
    decreases ts.len() - pos,
{
    if pos < ts.len() && is_digit_token(ts[pos]) {
        lemma_digit_tokens_hold(ts, pos + 1);
        assert forall|i: int| 0 <= i < digit_tokens(ts, pos) implies is_digit_token(
            #[trigger] ts[pos + i],
        ) by {
            if i > 0 {
                assert(ts[pos + i] == ts[pos + 1 + (i - 1)]);
            }
        }
    }
}

proof fn lemma_digits_spelled(ts: Seq<TokenView>, pos: int, n: nat)
    requires
        0 <= pos,
        pos + n <= ts.len(),
        forall|i: int| 0 <= i < n ==> is_digit_token(#[trigger] ts[pos + i]),
    ensures
        stretch(ts, pos, pos + n) == digits_of(ts, pos, n),
    decreases n,
{
    if n == 0 {
        assert(ts.subrange(pos, pos) =~= Seq::<TokenView>::empty());
        assert(digits_of(ts, pos, 0) =~= Seq::<char>::empty());
    } else {
        lemma_digits_spelled(ts, pos, (n - 1) as nat);
        lemma_stretch_grows(ts, pos, pos + n - 1);
        assert(is_digit_token(ts[pos + (n - 1)]));
        assert(digits_of(ts, pos, n) =~= digits_of(ts, pos, (n - 1) as nat) + written(
            ts[pos + n - 1],
        ));
    }
}

proof fn lemma_number(ts: Seq<TokenView>, pos: int)
    requires
        1 <= pos <= ts.len(),
        ts[pos - 1] is LeftBrace || ts[pos - 1] is Comma,
        counts_as_written(ts),
        number_at(ts, pos) is Ok,
    ensures
        pos < number_at(ts, pos)->Ok_0.1 <= ts.len(),
        stretch(ts, pos, number_at(ts, pos)->Ok_0.1) == decimal(number_at(ts, pos)->Ok_0.0 as nat),
{
    let n = digit_tokens(ts, pos);
    lemma_digit_tokens_hold(ts, pos);
    lemma_digits_spelled(ts, pos, n);
    let digits = digits_of(ts, pos, n);
    assert forall|i: int| 0 <= i < digits.len() implies is_digit(#[trigger] digits[i]) by {
        assert(is_digit_token(ts[pos + i]));
    }
    if n > 1 && digits[0] == '0' {
        assert(is_digit_token(ts[pos + 0]));
        assert(tok(ts, pos) == TokenView::Literal('0'));
        assert(is_digit_token(ts[pos + 1]));
        assert(ts[pos - 1] is LeftBrace || ts[pos - 1] is Comma);
        assert(false);
    }
    lemma_numeral(digits);
}

proof fn lemma_counted(ts: Seq<TokenView>, pos: int)
    requires
        1 <= pos <= ts.len(),
        ts[pos - 1] is LeftBrace,
        counts_as_written(ts),
        counted_at(ts, pos) is Ok,
    ensures
        pos < counted_at(ts, pos)->Ok_0.1 <= ts.len(),
        stretch(ts, pos - 1, counted_at(ts, pos)->Ok_0.1) == quantifier_text(
            counted_at(ts, pos)->Ok_0.0,
        ),
{
    lemma_number(ts, pos);
    let (min, p) = number_at(ts, pos)->Ok_0;
    lemma_stretch_one(ts, pos - 1);
    lemma_stretch_joins(ts, pos - 1, pos, p);
    let head = seq!['{'] + decimal(min as nat);
    assert(stretch(ts, pos - 1, p) == head);
    if tok(ts, p) is Comma {
        lemma_stretch_grows(ts, pos - 1, p);
        if tok(ts, p + 1) is RightBrace {
            let q = Quantifier::AtLeast(min);
            lemma_stretch_grows(ts, pos - 1, p + 1);
            assert(stretch(ts, pos - 1, p + 2) =~= quantifier_text(q));
            lemma_lazy(ts, pos - 1, p + 2, q);
        } else {
            lemma_number(ts, p + 1);
            let (max, close) = number_at(ts, p + 1)->Ok_0;
            let q = Quantifier::Between(min, max);
            lemma_stretch_joins(ts, pos - 1, p + 1, close);
            lemma_stretch_grows(ts, pos - 1, close);
            assert(stretch(ts, pos - 1, close + 1) =~= quantifier_text(q));
            lemma_lazy(ts, pos - 1, close + 1, q);
        }
    } else {
        let q = Quantifier::Exactly(min);
        lemma_stretch_grows(ts, pos - 1, p);
        assert(stretch(ts, pos - 1, p + 1) =~= quantifier_text(q));
        lemma_lazy(ts, pos - 1, p + 1, q);
    }
}

proof fn lemma_lazy(ts: Seq<TokenView>, from: int, pos: int, q: Quantifier)
    requires
        0 <= from <= pos <= ts.len(),
        q is Exactly || q is AtLeast || q is Between,
        stretch(ts, from, pos) == quantifier_text(q),
    ensures
        pos <= with_laziness(ts, pos, q).1 <= ts.len(),
        stretch(ts, from, with_laziness(ts, pos, q).1) == quantifier_text(
            with_laziness(ts, pos, q).0,
        ),
{
    if tok(ts, pos) is Question && !(q is Exactly) {
        lemma_stretch_grows(ts, from, pos);
        assert(stretch(ts, from, pos + 1) =~= quantifier_text(with_laziness(ts, pos, q).0));
    }
}

proof fn lemma_quantifier(ts: Seq<TokenView>, pos: int)
    requires
        0 <= pos <= ts.len(),
        counts_as_written(ts),
        quantifier_at(ts, pos) is Ok,
    ensures
        pos <= quantifier_at(ts, pos)->Ok_0.1 <= ts.len(),
        match quantifier_at(ts, pos)->Ok_0.0 {
            None => quantifier_at(ts, pos)->Ok_0.1 == pos,
            Some(q) => stretch(ts, pos, quantifier_at(ts, pos)->Ok_0.1) == quantifier_text(q),
        },
{
    if pos < ts.len() {
        lemma_stretch_one(ts, pos);
        reveal_strlit("*");
        reveal_strlit("*?");
        reveal_strlit("+");
        reveal_strlit("+?");
        reveal_strlit("?");
        match ts[pos] {
            TokenView::Star => assert("*"@ =~= seq!['*']),
            TokenView::StarLazy => assert("*?"@ =~= seq!['*', '?']),
            TokenView::Plus => assert("+"@ =~= seq!['+']),
            TokenView::PlusLazy => assert("+?"@ =~= seq!['+', '?']),
            TokenView::Question => assert("?"@ =~= seq!['?']),
            TokenView::LeftBrace => lemma_counted(ts, pos + 1),
            _ => {},
        }
    }
}

/// `t` is a token that a quantifier can be made of.
pub open spec fn of_quantifier(t: TokenView) -> bool {
    t is Star || t is StarLazy || t is Plus || t is PlusLazy || t is Question || t is LeftBrace
        || t is RightBrace || t is Comma || t is Literal
}

/// Between `a` and `b` every token of `ts` is one of a quantifier.
pub open spec fn quantifier_stretch(ts: Seq<TokenView>, a: int, b: int) -> bool {
    forall|i: int| a <= i < b ==> of_quantifier(#[trigger] ts[i])
}

/// Between `a` and `b` no token of `ts` is a bracket.
pub open spec fn no_brackets(ts: Seq<TokenView>, a: int, b: int) -> bool {
    forall|i: int| a <= i < b ==> !(#[trigger] ts[i] is LeftBracket) && !(ts[i] is RightBracket)
}

/// Behind tokens that are no brackets a position is inside a character
/// class just when the position in front of them is.
pub proof fn lemma_inside_same(ts: Seq<TokenView>, a: int, b: int)
    requires
        0 <= a <= b <= ts.len(),
        no_brackets(ts, a, b),
    ensures
        inside(ts, b) == inside(ts, a),
    decreases b - a,
{
    if a < b {
        assert(!(ts[b - 1] is LeftBracket) && !(ts[b - 1] is RightBracket));
        lemma_inside_same(ts, a, b - 1);
    }
}

proof fn lemma_number_outside(ts: Seq<TokenView>, pos: int)
    requires
        0 <= pos <= ts.len(),
        number_at(ts, pos) is Ok,
    ensures
        pos <= number_at(ts, pos)->Ok_0.1 <= ts.len(),
        quantifier_stretch(ts, pos, number_at(ts, pos)->Ok_0.1),
{
    lemma_digit_tokens_hold(ts, pos);
    let n = digit_tokens(ts, pos);
    assert forall|i: int| pos <= i < pos + n implies of_quantifier(#[trigger] ts[i]) by {
        assert(is_digit_token(ts[pos + (i - pos)]));
    }
}

/// A quantifier is made of its own tokens, and holds no bracket.
pub proof fn lemma_quantifier_outside(ts: Seq<TokenView>, pos: int)
    requires
        0 <= pos <= ts.len(),
        quantifier_at(ts, pos) is Ok,
    ensures
        pos <= quantifier_at(ts, pos)->Ok_0.1 <= ts.len(),
        quantifier_stretch(ts, pos, quantifier_at(ts, pos)->Ok_0.1),
        inside(ts, quantifier_at(ts, pos)->Ok_0.1) == inside(ts, pos),
{
    let end = quantifier_at(ts, pos)->Ok_0.1;
    if pos < ts.len() && ts[pos] is LeftBrace {
        lemma_number_outside(ts, pos + 1);
        let (min, p) = number_at(ts, pos + 1)->Ok_0;
        if tok(ts, p) is Comma && !(tok(ts, p + 1) is RightBrace) {
            lemma_number_outside(ts, p + 1);
        }
        assert(quantifier_stretch(ts, pos, end));
    }
    assert(no_brackets(ts, pos, end));
    lemma_inside_same(ts, pos, end);
}

proof fn lemma_class_item(ts: Seq<TokenView>, pos: int)
    requires
        0 <= pos < ts.len(),
        class_item_at(ts, pos) is Ok,
    ensures
        pos < class_item_at(ts, pos)->Ok_0.1 <= ts.len(),
        stretch(ts, pos, class_item_at(ts, pos)->Ok_0.1) == class_item_text(
            class_item_at(ts, pos)->Ok_0.0,
        ),
{
    lemma_stretch_one(ts, pos);
    let (item, p) = class_item_at(ts, pos)->Ok_0;
    if item is Range {
        lemma_stretch_grows(ts, pos, pos + 1);
        lemma_stretch_grows(ts, pos, pos + 2);
        assert(stretch(ts, pos, pos + 3) =~= class_item_text(item));
    }
}

proof fn lemma_items_text_holds(items: Seq<ClassItem>, item: ClassItem, n: nat)
    requires
        n <= items.len(),
    ensures
        class_items_text(items.push(item), n) == class_items_text(items, n),
    decreases n,
{
    if n > 0 {
        lemma_items_text_holds(items, item, (n - 1) as nat);
        assert(items.push(item)[n - 1] == items[n - 1]);
    }
}

proof fn lemma_class_items(ts: Seq<TokenView>, pos: int, acc: Seq<ClassItem>)
    requires
        0 <= pos <= ts.len(),
        class_items_at(ts, pos, acc) is Ok,
    ensures
        pos <= class_items_at(ts, pos, acc)->Ok_0.1 <= ts.len(),
        class_items_text(
            class_items_at(ts, pos, acc)->Ok_0.0,
            class_items_at(ts, pos, acc)->Ok_0.0.len(),
        ) == class_items_text(acc, acc.len()) + stretch(
            ts,
            pos,
            class_items_at(ts, pos, acc)->Ok_0.1,
        ),
    decreases ts.len() - pos,
{
    let here = class_items_text(acc, acc.len());
    if tok(ts, pos) is RightBracket || tok(ts, pos) is Eof || pos >= ts.len() {
        assert(ts.subrange(pos, pos) =~= Seq::<TokenView>::empty());
        assert(here + stretch(ts, pos, pos) =~= here);
    } else {
        lemma_class_item(ts, pos);
        let (item, p) = class_item_at(ts, pos)->Ok_0;
        let more = acc.push(item);
        lemma_class_items(ts, p, more);
        let end = class_items_at(ts, p, more)->Ok_0.1;
        lemma_items_text_holds(acc, item, acc.len());
        assert(class_items_text(more, more.len()) == class_items_text(more, acc.len())
            + class_item_text(more[acc.len() as int]));
        lemma_stretch_joins(ts, pos, p, end);
        assert(class_items_text(more, more.len()) + stretch(ts, p, end) =~= here + stretch(
            ts,
            pos,
            end,
        ));
    }
}

proof fn lemma_class(ts: Seq<TokenView>, pos: int)
    requires
        1 <= pos <= ts.len(),
        ts[pos - 1] is LeftBracket,
        class_at(ts, pos) is Ok,
    ensures
        pos < class_at(ts, pos)->Ok_0.1 <= ts.len(),
        class_at(ts, pos)->Ok_0.0 is CharacterClass,
        regex_text(class_at(ts, pos)->Ok_0.0) == stretch(ts, pos - 1, class_at(ts, pos)->Ok_0.1),
        !inside(ts, class_at(ts, pos)->Ok_0.1),
{
    let negated = tok(ts, pos) is Caret;
    let first = if negated {
        pos + 1
    } else {
        pos
    };
    lemma_class_items(ts, first, Seq::empty());
    let (items, p) = class_items_at(ts, first, Seq::empty())->Ok_0;
    let cc = CharacterClassView { negated, items };
    lemma_stretch_one(ts, pos - 1);
    if negated {
        lemma_stretch_one(ts, pos);
    }
    lemma_stretch_joins(ts, pos - 1, pos, p + 1);
    lemma_stretch_joins(ts, pos, first, p + 1);
    lemma_stretch_grows(ts, first, p);
    assert(ts.subrange(pos, pos) =~= Seq::<TokenView>::empty());
    assert(class_items_text(Seq::<ClassItem>::empty(), 0) =~= Seq::<char>::empty());
    assert(class_text(cc) =~= stretch(ts, pos - 1, p + 1));
}

proof fn lemma_sequence_text_holds(items: Seq<ExprView>, item: ExprView, n: nat)
    requires
        n <= items.len(),
    ensures
        sequence_text(items.push(item), n) == sequence_text(items, n),
    decreases n,
{
    if n > 0 {
        lemma_sequence_text_holds(items, item, (n - 1) as nat);
        assert(items.push(item)[n - 1] == items[n - 1]);
    }
}

proof fn lemma_alternation_text_holds(items: Seq<ExprView>, item: ExprView, n: nat)
    requires
        n <= items.len(),
    ensures
        alternation_text(items.push(item), n) == alternation_text(items, n),
    decreases n,
{
    if n > 0 {
        lemma_alternation_text_holds(items, item, (n - 1) as nat);
        assert(items.push(item)[n - 1] == items[n - 1]);
        assert(items.push(item)[0] == items[0]);
    }
}

proof fn lemma_atom(ts: Seq<TokenView>, pos: int)
    requires
        0 <= pos < ts.len(),
        unnamed(ts),
        counts_as_written(ts),
        !inside(ts, pos),
        atom_at(ts, pos) is Ok,
    ensures
        pos < atom_at(ts, pos)->Ok_0.1 <= ts.len(),
        !(atom_at(ts, pos)->Ok_0.0 is Alternation),
        regex_text(atom_at(ts, pos)->Ok_0.0) == stretch(ts, pos, atom_at(ts, pos)->Ok_0.1),
        !inside(ts, atom_at(ts, pos)->Ok_0.1),
    decreases ts.len() - pos, 0nat,
{
    let t = tok(ts, pos);
    lemma_stretch_one(ts, pos);
    assert(!(ts[pos] is NamedGroupStart));
    if simple_atom(t) is Some {
        assert(regex_text(simple_atom(t)->Some_0) =~= written(t));
    } else if opens_group(t) {
        lemma_alternation(ts, pos + 1);
        let (inner, p) = alternation_at(ts, pos + 1)->Ok_0;
        assert(tok(ts, p) is RightParen);
        lemma_stretch_joins(ts, pos, pos + 1, p);
        lemma_stretch_grows(ts, pos, p);
        assert(regex_text(wrap_group(t, inner)) =~= stretch(ts, pos, p + 1));
    } else {
        lemma_class(ts, pos + 1);
    }
}

proof fn lemma_quantified(ts: Seq<TokenView>, pos: int)
    requires
        0 <= pos < ts.len(),
        unnamed(ts),
        counts_as_written(ts),
        !inside(ts, pos),
        quantified_at(ts, pos) is Ok,
    ensures
        pos < quantified_at(ts, pos)->Ok_0.1 <= ts.len(),
        regex_text(quantified_at(ts, pos)->Ok_0.0) == stretch(
            ts,
            pos,
            quantified_at(ts, pos)->Ok_0.1,
        ),
        !inside(ts, quantified_at(ts, pos)->Ok_0.1),
    decreases ts.len() - pos, 1nat,
{
    lemma_atom(ts, pos);
    let (atom, p) = atom_at(ts, pos)->Ok_0;
    lemma_quantifier(ts, p);
    lemma_quantifier_outside(ts, p);
    let (q, after) = quantifier_at(ts, p)->Ok_0;
    lemma_stretch_joins(ts, pos, p, after);
}

proof fn lemma_sequence(ts: Seq<TokenView>, pos: int, acc: Seq<ExprView>)
    requires
        0 <= pos <= ts.len(),
        unnamed(ts),
        counts_as_written(ts),
        !inside(ts, pos),
        sequence_rest(ts, pos, acc) is Ok,
    ensures
        pos <= sequence_rest(ts, pos, acc)->Ok_0.1 <= ts.len(),
        regex_text(sequence_rest(ts, pos, acc)->Ok_0.0) == sequence_text(acc, acc.len())
            + stretch(ts, pos, sequence_rest(ts, pos, acc)->Ok_0.1),
        !inside(ts, sequence_rest(ts, pos, acc)->Ok_0.1),
    decreases ts.len() - pos, 2nat,
{
    let here = sequence_text(acc, acc.len());
    if ends_sequence(tok(ts, pos)) {
        assert(ts.subrange(pos, pos) =~= Seq::<TokenView>::empty());
        assert(here + stretch(ts, pos, pos) =~= here);
        if acc.len() == 1 {
            assert(sequence_text(acc, 1) == sequence_text(acc, 0) + regex_text(acc[0]));
            assert(here =~= regex_text(acc[0]));
        } else if acc.len() == 0 {
            assert(here =~= Seq::<char>::empty());
        }
        assert(regex_text(sequence_of(acc)) == here);
    } else {
        lemma_quantified(ts, pos);
        let (item, p) = quantified_at(ts, pos)->Ok_0;
        let more = acc.push(item);
        lemma_sequence(ts, p, more);
        let end = sequence_rest(ts, p, more)->Ok_0.1;
        lemma_sequence_text_holds(acc, item, acc.len());
        assert(sequence_text(more, more.len()) == sequence_text(more, acc.len()) + regex_text(
            more[acc.len() as int],
        ));
        lemma_stretch_joins(ts, pos, p, end);
        assert(sequence_text(more, more.len()) + stretch(ts, p, end) =~= here + stretch(
            ts,
            pos,
            end,
        ));
    }
}

proof fn lemma_alternation_rest(ts: Seq<TokenView>, pos: int, acc: Seq<ExprView>)
    requires
        0 <= pos <= ts.len(),
        unnamed(ts),
        counts_as_written(ts),
        !inside(ts, pos),
        acc.len() >= 1,
        alternation_rest(ts, pos, acc) is Ok,
    ensures
        pos <= alternation_rest(ts, pos, acc)->Ok_0.1 <= ts.len(),
        regex_text(alternation_rest(ts, pos, acc)->Ok_0.0) == alternation_text(acc, acc.len())
            + stretch(ts, pos, alternation_rest(ts, pos, acc)->Ok_0.1),
        !inside(ts, alternation_rest(ts, pos, acc)->Ok_0.1),
    decreases ts.len() - pos, 3nat,
{
    let here = alternation_text(acc, acc.len());
    if tok(ts, pos) is Pipe {
        lemma_sequence(ts, pos + 1, Seq::empty());
        let (next, p) = sequence_rest(ts, pos + 1, Seq::empty())->Ok_0;
        let more = acc.push(next);
        lemma_alternation_rest(ts, p, more);
        let end = alternation_rest(ts, p, more)->Ok_0.1;
        lemma_alternation_text_holds(acc, next, acc.len());
        assert(alternation_text(more, more.len()) == alternation_text(more, acc.len()) + seq!['|']
            + regex_text(more[acc.len() as int]));
        assert(sequence_text(Seq::<ExprView>::empty(), 0) =~= Seq::<char>::empty());
        assert(regex_text(next) =~= stretch(ts, pos + 1, p));
        lemma_stretch_one(ts, pos);
        lemma_stretch_joins(ts, pos, pos + 1, p);
        lemma_stretch_joins(ts, pos, p, end);
        assert(alternation_text(more, more.len()) + stretch(ts, p, end) =~= here + stretch(
            ts,
            pos,
            end,
        ));
    } else {
        assert(ts.subrange(pos, pos) =~= Seq::<TokenView>::empty());
        assert(here + stretch(ts, pos, pos) =~= here);
        assert(regex_text(alternation_of(acc)) == here);
    }
}

pub proof fn lemma_alternation(ts: Seq<TokenView>, pos: int)
    requires
        0 <= pos <= ts.len(),
        unnamed(ts),
        counts_as_written(ts),
        !inside(ts, pos),
        alternation_at(ts, pos) is Ok,
    ensures
        pos <= alternation_at(ts, pos)->Ok_0.1 <= ts.len(),
        regex_text(alternation_at(ts, pos)->Ok_0.0) == stretch(
            ts,
            pos,
            alternation_at(ts, pos)->Ok_0.1,
        ),
        !inside(ts, alternation_at(ts, pos)->Ok_0.1),
    decreases ts.len() - pos, 4nat,
{
    lemma_sequence(ts, pos, Seq::empty());
    let (first, p) = sequence_rest(ts, pos, Seq::empty())->Ok_0;
    let acc = seq![first];
    lemma_alternation_rest(ts, p, acc);
    let end = alternation_rest(ts, p, acc)->Ok_0.1;
    assert(sequence_text(Seq::<ExprView>::empty(), 0) =~= Seq::<char>::empty());
    assert(regex_text(first) =~= stretch(ts, pos, p));
    assert(alternation_text(acc, 1) == regex_text(acc[0]));
    lemma_stretch_joins(ts, pos, p, end);
}

proof fn lemma_unnamed(s: Seq<char>)
    requires
        as_written(s, 0),
    ensures
        unnamed(tokens_of(s)),
        spelling(tokens_of(s)) == s,
{
    lemma_lexed(s, 0);
    let ts = tokens_of(s);
    assert forall|i: int| 0 <= i < ts.len() implies {
        &&& !(#[trigger] ts[i] is NamedGroupStart)
        &&& (ts[i] is Literal ==> is_plain(ts[i]->Literal_0))
        &&& (ts[i] is Escape && is_plain(ts[i]->Escape_0) ==> inside(ts, i))
    } by {
        assert(!(tokens_from(s, 0)[i] is Escape && is_plain(tokens_from(s, 0)[i]->Escape_0)));
    }
    assert(s.subrange(0, s.len() as int) =~= s);
}

/// The syntax tree of a whole token sequence is written as its tokens
/// are, one after the other.
pub proof fn lemma_whole_text(ts: Seq<TokenView>)
    requires
        well_ended(ts),
        unnamed(ts),
        counts_as_written(ts),
        parse_from(ts, 0) is Ok,
    ensures
        regex_text(parse_from(ts, 0)->Ok_0) == spelling(ts.drop_last()),
{
    lemma_alternation(ts, 0);
    let (e, p) = alternation_at(ts, 0)->Ok_0;
    assert(tok(ts, p) is Eof);
    if p < ts.len() {
        assert(ts[p] is Eof);
        assert(p == ts.len() - 1);
        assert(ts.subrange(0, p) =~= ts.drop_last());
    } else {
        assert(ts.subrange(0, p) =~= ts);
        assert(spelling(ts) == spelling(ts.drop_last()) + written(ts.last()));
        assert(spelling(ts) =~= spelling(ts.drop_last()));
    }
}

/// A pattern that parses and is written as the conventional notation
/// writes it, without named groups, reads in that notation as it stands.
pub proof fn lemma_written_pattern(s: Seq<char>)
    requires
        as_written(s, 0),
        counts_as_written(tokens_of(s)),
        pattern_ast(s) is Ok,
    ensures
        transpiled(s) == Ok::<Seq<char>, RegexErrorView>(s),
{
    let ts = tokens_of(s);
    lemma_unnamed(s);
    lemma_no_dangling_escape(s, 0);
    lemma_tokens_end_in_eof(s, 0);
    lemma_whole_text(ts);
    assert(spelling(ts) == spelling(ts.drop_last()) + written(ts.last()));
    assert(spelling(ts) =~= spelling(ts.drop_last()));
}

} // verus!
