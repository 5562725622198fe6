//! Tokens that are written out are read back: the lexer finds in the
//! writing of a token sequence the tokens that were written, where each
//! token can be told from what follows it.

use crate::grammar::{is_digit_token, tok};
use crate::lexer::{
    TokenView, dangling_escape, is_relative, lemma_token_advances, lemma_tokens_end_in_eof,
    token_at, tokens_from, tokens_of,
};
use crate::spelling::{inside, lemma_spelling_joins, spelling, written};
use crate::text::{
    decimal, is_digit, is_name_char, is_name_start, is_plain, lemma_decimal_denotes,
    lemma_digit_run_bound, lemma_digit_run_is, lemma_run_until_bound, lemma_run_until_is,
    name_run, run_until,
};
use vstd::prelude::*;

verus! {

/// The token `t` is one that the lexer makes of its own writing.
pub open spec fn rereadable(t: TokenView) -> bool {
    match t {
        TokenView::Literal(c) => is_plain(c),
        TokenView::Escape(c) => c != 'w' && c != 'W' && c != 'd' && c != 'D' && c != 's' && c != 'S'
            && c != 'b' && c != 'B' && !is_digit(c),
        TokenView::BackrefRelative(r) => -0x7fff_ffff <= r <= -1,
        TokenView::BackrefName(name) => !is_relative(name) && forall|i: int|
            0 <= i < name.len() ==> #[trigger] name[i] != '}',
        TokenView::NamedGroupStart(_) => false,
        TokenView::Colon => false,
        TokenView::Eof => false,
        _ => true,
    }
}

/// Behind the token `t`, the token `next` does not change what `t` reads
/// as.
pub open spec fn parts_from(t: TokenView, next: TokenView) -> bool {
    match t {
        TokenView::Star => !(next is Question),
        TokenView::Plus => !(next is Question),
        TokenView::Escape(c) => c == 'g' ==> !(next is LeftBrace),
        TokenView::BackrefNumber(_) => !is_digit_token(next),
        _ => true,
    }
}

/// Every token of `u` can be read back from the writing of `u`.
pub open spec fn fits(u: Seq<TokenView>) -> bool {
    forall|i: int|
        0 <= i < u.len() ==> rereadable(#[trigger] u[i]) && parts_from(u[i], tok(u, i + 1))
}

/// The place in the writing of `u` at which token `k` starts.
pub open spec fn place(u: Seq<TokenView>, k: int) -> int {
    spelling(u.take(k)).len() as int
}

proof fn lemma_first(t: TokenView)
    requires
        rereadable(t),
    ensures
        written(t).len() >= 1,
        written(t)[0] != ':',
        is_plain(written(t)[0]) ==> t == TokenView::Literal(written(t)[0]) && written(t).len() == 1,
        written(t)[0] == '?' ==> t is Question,
        written(t)[0] == '{' ==> t is LeftBrace,
{
    reveal_strlit("(?:");
    reveal_strlit("\\g{");
    reveal_strlit("\\b");
    reveal_strlit("\\B");
    match t {
        TokenView::BackrefNumber(n) => {
            assert(written(t)[0] == '\\');
        },
        TokenView::BackrefRelative(r) => {
            assert(written(t)[0] == '\\');
        },
        TokenView::BackrefName(name) => {
            assert(written(t)[0] == '\\');
        },
        TokenView::NonCapturing => {
            assert(written(t)[0] == '(');
        },
        TokenView::WordBoundary => {
            assert(written(t)[0] == '\\');
        },
        TokenView::NonWordBoundary => {
            assert(written(t)[0] == '\\');
        },
        _ => {},
    }
}

proof fn lemma_escapes_are_long(t: TokenView)
    requires
        rereadable(t),
        written(t)[0] == '\\',
    ensures
        written(t).len() >= 2,
{
    reveal_strlit("(?:");
    reveal_strlit("\\g{");
    reveal_strlit("\\b");
    reveal_strlit("\\B");
    lemma_decimal_denotes(0);
    match t {
        TokenView::BackrefNumber(n) => {
            lemma_decimal_denotes(n as nat);
        },
        _ => {},
    }
}

proof fn lemma_places(u: Seq<TokenView>, k: int)
    requires
        0 <= k <= u.len(),
    ensures
        0 <= place(u, k) <= spelling(u).len(),
        spelling(u).subrange(place(u, k), spelling(u).len() as int) == spelling(u.skip(k)),
        k < u.len() ==> place(u, k + 1) == place(u, k) + written(u[k]).len() && spelling(
            u.skip(k),
        ) == written(u[k]) + spelling(u.skip(k + 1)),
        k == u.len() ==> place(u, k) == spelling(u).len(),
{
    let whole = spelling(u);
    assert(u =~= u.take(k) + u.skip(k));
    lemma_spelling_joins(u.take(k), u.skip(k));
    assert(whole.subrange(place(u, k), whole.len() as int) =~= spelling(u.skip(k)));
    if k < u.len() {
        assert(u.take(k + 1).drop_last() =~= u.take(k));
        assert(u.take(k + 1).last() == u[k]);
        let one = seq![u[k]];
        assert(one.drop_last() =~= Seq::<TokenView>::empty());
        assert(spelling(one) == spelling(one.drop_last()) + written(u[k]));
        assert(spelling(one.drop_last()) =~= Seq::<char>::empty());
        assert(spelling(one) =~= written(u[k]));
        assert(u.skip(k) =~= one + u.skip(k + 1));
        lemma_spelling_joins(one, u.skip(k + 1));
    } else {
        assert(u.take(k) =~= u);
    }
}

/// What is written for the token `t` is read as `t`, where what follows
/// does not read on with it.
proof fn lemma_reads(s: Seq<char>, pos: int, t: TokenView, rest: Seq<char>)
    requires
        0 <= pos <= s.len(),
        s.subrange(pos, s.len() as int) == written(t) + rest,
        rereadable(t),
        !(t is LeftParen),
        (t is Star || t is Plus) ==> rest.len() == 0 || rest[0] != '?',
        t == TokenView::Escape('g') ==> rest.len() == 0 || rest[0] != '{',
        t is BackrefNumber ==> rest.len() == 0 || !is_digit(rest[0]),
    ensures
        token_at(s, pos) == (t, pos + written(t).len()),
{
    let w = written(t);
    let tail = s.subrange(pos, s.len() as int);
    lemma_first(t);
    assert(tail.len() == s.len() - pos);
    assert((w + rest).len() == w.len() + rest.len());
    assert forall|i: int| 0 <= i < w.len() implies s[pos + i] == #[trigger] w[i] by {
        assert(tail[i] == s[pos + i]);
    }
    assert forall|i: int| 0 <= i < rest.len() implies s[pos + w.len() + i] == #[trigger] rest[i] by {
        assert(tail[w.len() + i] == s[pos + w.len() + i]);
    }
    assert(s[pos] == w[0]);
    reveal_strlit("(?:");
    reveal_strlit("\\g{");
    reveal_strlit("\\b");
    reveal_strlit("\\B");
    match t {
        TokenView::BackrefNumber(n) => {
            let digits = decimal(n as nat);
            lemma_decimal_denotes(n as nat);
            assert(w[0] == '\\');
            assert forall|i: int| pos + 1 <= i < pos + 1 + digits.len() implies is_digit(
                #[trigger] s[i],
            ) by {
                assert(w[i - pos] == digits[i - pos - 1]);
                assert(s[pos + (i - pos)] == w[i - pos]);
            }
            if rest.len() > 0 {
                assert(s[pos + w.len() + 0] == rest[0]);
            }
            lemma_digit_run_is(s, pos + 1, digits.len());
            assert forall|i: int| 0 <= i < digits.len() implies s[pos + 1 + i] == #[trigger] digits[i] by {
                assert(s[pos + (1 + i)] == w[1 + i]);
                assert(w[1 + i] == digits[i]);
            }
            assert(s.subrange(pos + 1, pos + 1 + digits.len()) =~= digits);
            assert(s[pos + 1] == w[1]);
            assert(is_digit(s[pos + 1]));
        },
        TokenView::BackrefRelative(r) => {
            let m = (-r) as nat;
            let digits = decimal(m);
            lemma_decimal_denotes(m);
            assert(w =~= seq!['\\', 'g', '{', '-'] + digits + seq!['}']);
            assert(s[pos + 1] == w[1] && s[pos + 2] == w[2] && s[pos + 3] == w[3]);
            let len: int = digits.len() as int + 1;
            assert forall|i: int| pos + 3 <= i < pos + 3 + len implies #[trigger] s[i] != '}' by {
                assert(s[pos + (i - pos)] == w[i - pos]);
                if i > pos + 3 {
                    assert(w[i - pos] == digits[i - pos - 4]);
                    assert(is_digit(digits[i - pos - 4]));
                }
            }
            assert(s[pos + (len + 3)] == w[len + 3]);
            lemma_run_until_is(s, pos + 3, '}', len as nat);
            let content = s.subrange(pos + 3, pos + 3 + len);
            assert forall|i: int| 0 <= i < len implies s[pos + 3 + i] == #[trigger] (seq!['-']
                + digits)[i] by {
                assert(s[pos + (3 + i)] == w[3 + i]);
            }
            assert(content =~= seq!['-'] + digits);
            assert(content.subrange(1, content.len() as int) =~= digits);
            assert(is_relative(content));
        },
        TokenView::BackrefName(name) => {
            assert(w =~= seq!['\\', 'g', '{'] + name + seq!['}']);
            assert(s[pos + 1] == w[1] && s[pos + 2] == w[2]);
            assert forall|i: int| pos + 3 <= i < pos + 3 + name.len() implies #[trigger] s[i]
                != '}' by {
                assert(s[pos + (i - pos)] == w[i - pos]);
                assert(w[i - pos] == name[i - pos - 3]);
            }
            assert(s[pos + (name.len() + 3)] == w[name.len() as int + 3]);
            lemma_run_until_is(s, pos + 3, '}', name.len());
            assert forall|i: int| 0 <= i < name.len() implies s[pos + 3 + i] == #[trigger] name[i] by {
                assert(s[pos + (3 + i)] == w[3 + i]);
                assert(w[3 + i] == name[i]);
            }
            assert(s.subrange(pos + 3, pos + 3 + name.len()) =~= name);
        },
        TokenView::NonCapturing => {
            assert(s[pos + 1] == w[1] && s[pos + 2] == w[2]);
        },
        TokenView::Escape(c) => {
            assert(s[pos + 1] == w[1]);
            if rest.len() > 0 {
                assert(s[pos + w.len() + 0] == rest[0]);
            }
        },
        TokenView::Star => {
            if rest.len() > 0 {
                assert(s[pos + w.len() + 0] == rest[0]);
            }
        },
        TokenView::Plus => {
            if rest.len() > 0 {
                assert(s[pos + w.len() + 0] == rest[0]);
            }
        },
        TokenView::LeftParen => {},
        TokenView::NamedGroupStart(_) => {},
        TokenView::Colon => {},
        TokenView::Eof => {},
        TokenView::Literal(c) => {},
        _ => {
            if w.len() > 1 {
                assert(s[pos + 1] == w[1]);
            }
        },
    }
}

/// The number of tokens of `u` from place `j` on that are literals of
/// characters of a name.
pub open spec fn name_tokens(u: Seq<TokenView>, j: int) -> nat
    decreases u.len() - j,
{
    if 0 <= j < u.len() && u[j] is Literal && is_name_char(u[j]->Literal_0) {
        1 + name_tokens(u, j + 1)
    } else {
        0
    }
}

proof fn lemma_starts_with(u: Seq<TokenView>, k: int)
    requires
        fits(u),
        0 <= k <= u.len(),
    ensures
        k < u.len() ==> place(u, k) < spelling(u).len() && spelling(u)[place(u, k)] == written(
            u[k],
        )[0] && spelling(u.skip(k)).len() > 0 && spelling(u.skip(k))[0] == written(u[k])[0],
        k == u.len() ==> place(u, k) == spelling(u).len() && spelling(u.skip(k)).len() == 0,
{
    lemma_places(u, k);
    let whole = spelling(u);
    if k < u.len() {
        lemma_first(u[k]);
        let tail = whole.subrange(place(u, k), whole.len() as int);
        assert(tail.len() == written(u[k]).len() + spelling(u.skip(k + 1)).len());
        assert(tail[0] == whole[place(u, k)]);
        assert(tail[0] == written(u[k])[0]);
    } else {
        assert(u.skip(k) =~= Seq::<TokenView>::empty());
    }
}

proof fn lemma_name_tokens(u: Seq<TokenView>, j: int)
    requires
        fits(u),
        0 <= j <= u.len(),
    ensures
        name_run(spelling(u), place(u, j)) == name_tokens(u, j),
        j + name_tokens(u, j) <= u.len(),
        place(u, j + name_tokens(u, j)) == place(u, j) + name_tokens(u, j),
    decreases u.len() - j,
{
    lemma_starts_with(u, j);
    if j < u.len() {
        lemma_first(u[j]);
        lemma_places(u, j);
        if is_name_char(spelling(u)[place(u, j)]) {
            assert(u[j] is Literal);
            lemma_name_tokens(u, j + 1);
        }
    }
}

proof fn lemma_reads_paren(u: Seq<TokenView>, k: int)
    requires
        fits(u),
        0 <= k < u.len(),
        u[k] is LeftParen,
    ensures
        token_at(spelling(u), place(u, k)) == (TokenView::LeftParen, place(u, k) + 1),
{
    let whole = spelling(u);
    let q = place(u, k);
    lemma_starts_with(u, k);
    lemma_places(u, k);
    lemma_starts_with(u, k + 1);
    assert(place(u, k + 1) == q + 1);
    if k + 1 < u.len() {
        let c = whole[q + 1];
        lemma_first(u[k + 1]);
        lemma_places(u, k + 1);
        if c == '?' {
            assert(place(u, k + 2) == q + 2);
            lemma_starts_with(u, k + 2);
            if k + 2 < u.len() {
                lemma_first(u[k + 2]);
            }
        } else if is_name_start(c) {
            lemma_name_tokens(u, k + 1);
            let m = name_tokens(u, k + 1);
            lemma_starts_with(u, k + 1 + m);
            if k + 1 + m < u.len() {
                lemma_first(u[k + 1 + m]);
            }
        }
    }
}

proof fn lemma_reread_from(u: Seq<TokenView>, k: int)
    requires
        fits(u),
        0 <= k <= u.len(),
    ensures
        tokens_from(spelling(u), place(u, k)) == u.skip(k).push(TokenView::Eof),
        dangling_escape(spelling(u), place(u, k)) is None,
    decreases u.len() - k,
{
    let whole = spelling(u);
    lemma_places(u, k);
    lemma_starts_with(u, k);
    if k == u.len() {
        assert(u.skip(k).push(TokenView::Eof) =~= seq![TokenView::Eof]);
    } else {
        let t = u[k];
        let rest = spelling(u.skip(k + 1));
        lemma_first(t);
        lemma_starts_with(u, k + 1);
        if k + 1 < u.len() {
            lemma_first(u[k + 1]);
            assert(tok(u, k + 1) == u[k + 1]);
        } else {
            assert(tok(u, k + 1) is Eof);
        }
        assert(parts_from(t, tok(u, k + 1)));
        if t is LeftParen {
            lemma_reads_paren(u, k);
        } else {
            lemma_reads(whole, place(u, k), t, rest);
        }
        lemma_reread_from(u, k + 1);
        assert(token_at(whole, place(u, k)) == (t, place(u, k + 1)));
        if whole[place(u, k)] == '\\' {
            lemma_escapes_are_long(t);
        }
        assert(u.skip(k).push(TokenView::Eof) =~= seq![t] + u.skip(k + 1).push(TokenView::Eof));
    }
}

/// Where every token of `u` can be told from what follows it, the lexer
/// reads the writing of `u` as `u`.
pub proof fn lemma_reread(u: Seq<TokenView>)
    requires
        fits(u),
    ensures
        tokens_of(spelling(u)) == u.push(TokenView::Eof),
        dangling_escape(spelling(u), 0) is None,
{
    lemma_reread_from(u, 0);
    assert(u.take(0) =~= Seq::<TokenView>::empty());
    assert(u.skip(0) =~= u);
}

/// What holds of the tokens that the lexer makes of a pattern: `Eof` is
/// the last of them and no other, each token is one that its own writing
/// gives again, and none reads on into the next.
pub open spec fn lexed(ts: Seq<TokenView>) -> bool {
    forall|i: int|
        0 <= i < ts.len() ==> {
            &&& (#[trigger] ts[i] is Eof <==> i == ts.len() - 1)
            &&& (rereadable(ts[i]) || ts[i] is Eof || ts[i] is Colon || ts[i] is NamedGroupStart)
            &&& parts_from(ts[i], tok(ts, i + 1))
        }
}

/// The token at place `i` of `ts` as the conventional notation writes what
/// it stands for: a plain character behind a backslash loses the
/// backslash, but in a character class.
pub open spec fn normal_token(ts: Seq<TokenView>, i: int) -> TokenView {
    match ts[i] {
        TokenView::Escape(c) => if is_plain(c) && !inside(ts, i) {
            TokenView::Literal(c)
        } else {
            ts[i]
        },
        t => t,
    }
}

/// The tokens `ts`, each as [`normal_token`] gives it.
pub open spec fn normal(ts: Seq<TokenView>) -> Seq<TokenView> {
    Seq::new(ts.len(), |i: int| normal_token(ts, i))
}

/// The tokens of a pattern are [`lexed`].
pub proof fn lemma_tokens_lexed(s: Seq<char>, pos: int)
    requires
        0 <= pos <= s.len(),
    ensures
        lexed(tokens_from(s, pos)),
    decreases s.len() - pos,
{
    let (t, behind) = token_at(s, pos);
    let all = tokens_from(s, pos);
    lemma_token_advances(s, pos);
    lemma_tokens_end_in_eof(s, pos);
    if t is Eof {
        assert(all =~= seq![t]);
    } else {
        lemma_tokens_lexed(s, behind);
        lemma_tokens_end_in_eof(s, behind);
        lemma_token_advances(s, behind);
        let rest = tokens_from(s, behind);
        assert(all =~= seq![t] + rest);
        let next = token_at(s, behind).0;
        assert(rest[0] == next);
        lemma_own(s, pos);
        assert forall|i: int| 0 <= i < all.len() implies {
            &&& (#[trigger] all[i] is Eof <==> i == all.len() - 1)
            &&& (rereadable(all[i]) || all[i] is Eof || all[i] is Colon
                || all[i] is NamedGroupStart)
            &&& parts_from(all[i], tok(all, i + 1))
        } by {
            if i > 0 {
                assert(all[i] == rest[i - 1]);
                assert(tok(all, i + 1) == tok(rest, i));
            } else {
                assert(tok(all, 1) == next);
            }
        }
    }
}

proof fn lemma_own(s: Seq<char>, pos: int)
    requires
        0 <= pos < s.len(),
    ensures
        rereadable(token_at(s, pos).0) || token_at(s, pos).0 is Colon || token_at(
            s,
            pos,
        ).0 is NamedGroupStart,
        parts_from(token_at(s, pos).0, token_at(s, token_at(s, pos).1).0),
{
    let (t, behind) = token_at(s, pos);
    lemma_token_advances(s, pos);
    match t {
        TokenView::BackrefName(name) => {
            let n = run_until(s, pos + 3, '}');
            lemma_run_until_bound(s, pos + 3, '}');
            let content = s.subrange(pos + 3, pos + 3 + n);
            assert(name == content);
            assert forall|i: int| 0 <= i < name.len() implies #[trigger] name[i] != '}' by {
                assert(content[i] == s[pos + 3 + i]);
            }
        },
        TokenView::BackrefRelative(r) => {
            let n = run_until(s, pos + 3, '}');
            lemma_run_until_bound(s, pos + 3, '}');
        },
        TokenView::BackrefNumber(n) => {
            lemma_digit_run_bound(s, pos + 1);
        },
        _ => {},
    }
}

} // verus!
