//! A repetition in a repetition: `(a+)+` matches every run of `a`, however
//! long, and all of it.

use crate::ast::{ExprView, Quantifier};
use crate::complete::{lemma_automaton_plain, lemma_plain_match_complete, lemma_walk_in_input};
use crate::engine::{ModeFlags, compiled, found, lemma_first_match, machine_of};
use crate::error::{ParseErrorView, RegexErrorView};
use crate::grammar::{
    alternation_at, alternation_rest, atom_at, parse_from, pattern_tree, quantified_at,
    quantifier_at, sequence_rest,
};
use crate::groups::{Names, declared, register_all};
use crate::lexer::{TokenView, dangling_escape, token_at, tokens_from, tokens_of};
use crate::text::{is_name_char, name_run};
use crate::paths::{lemma_match_is_walk, lemma_walk_on, origin, walk};
use crate::pieces::no_backrefs;
use crate::simulation::{Machine, edges_of, first_match, match_at};
use crate::thompson::{
    Build, Graph, Label, automaton, empty_build, grouped, looped, pair, thompson, with_edge,
    with_state,
};
use vstd::prelude::*;

verus! {

/// `a+`.
pub open spec fn inner_plus() -> ExprView {
    ExprView::Quantified {
        expr: Box::new(ExprView::Literal('a')),
        quantifier: Quantifier::OneOrMore,
    }
}

/// The syntax tree of `(a+)+`.
pub open spec fn nested_plus() -> ExprView {
    ExprView::Quantified {
        expr: Box::new(ExprView::Group(Box::new(inner_plus()))),
        quantifier: Quantifier::OneOrMore,
    }
}

/// The character `c`, `n` times.
pub open spec fn run_of(c: char, n: nat) -> Seq<char> {
    Seq::new(n, |i: int| c)
}

/// `n` times the number 0.
pub open spec fn zeros(n: nat) -> Seq<int> {
    Seq::new(n, |i: int| 0int)
}

/// The table of the automaton of `(a+)+`.
pub open spec fn nested_graph() -> Graph {
    let e = Label::Epsilon;
    seq![
        seq![(Label::GroupStart(1), 3int)],
        seq![(Label::Char('a'), 2int)],
        seq![(e, 1int), (e, 4int)],
        seq![(e, 1int)],
        seq![(Label::GroupEnd(1), 5int)],
        seq![(e, 0int), (e, 7int)],
        seq![(e, 0int)],
        Seq::empty(),
    ]
}

proof fn lemma_nested_graph()
    ensures
        automaton(nested_plus()).build.graph == nested_graph(),
        automaton(nested_plus()).start == 6,
        automaton(nested_plus()).accept == 7,
{
    let e = Label::Epsilon;
    let names = declared(nested_plus());
    let none = Seq::<(Label, int)>::empty();
    let b0 = empty_build();
    let g1: Graph = seq![none];
    assert(with_state(b0.graph) =~~= g1);
    let b1 = Build { graph: g1, next_group: 2 };
    let lit = pair(b1, Label::Char('a'));
    let g3: Graph = seq![none, seq![(Label::Char('a'), 2int)], none];
    assert(with_state(with_state(g1)) =~~= seq![none, none, none]);
    assert(lit.build.graph =~~= g3);
    assert(thompson(ExprView::Literal('a'), names, b1) == lit);
    let plus = looped(lit, Quantifier::OneOrMore);
    let g5: Graph = seq![
        none,
        seq![(Label::Char('a'), 2int)],
        seq![(e, 1int), (e, 4int)],
        seq![(e, 1int)],
        none,
    ];
    let g5a = with_state(with_state(g3));
    let g5b = with_edge(g5a, 3, e, 1);
    let g5c = with_edge(g5b, 2, e, 1);
    let g5d = with_edge(g5c, 2, e, 4);
    assert(g5a =~~= seq![none, seq![(Label::Char('a'), 2int)], none, none, none]);
    assert(g5d =~~= g5);
    assert(plus.build.graph == g5d);
    assert(plus.start == 3 && plus.accept == 4);
    assert(thompson(inner_plus(), names, b1) == plus);
    let group = grouped(inner_plus(), names, b0);
    let g6: Graph = seq![
        seq![(Label::GroupStart(1), 3int)],
        seq![(Label::Char('a'), 2int)],
        seq![(e, 1int), (e, 4int)],
        seq![(e, 1int)],
        seq![(Label::GroupEnd(1), 5int)],
        none,
    ];
    let g6a = with_state(g5);
    let g6b = with_edge(g6a, 0, Label::GroupStart(1), 3);
    let g6c = with_edge(g6b, 4, Label::GroupEnd(1), 5);
    assert(g6c =~~= g6);
    assert(group.build.graph == g6c);
    assert(group.start == 0 && group.accept == 5);
    assert(thompson(ExprView::Group(Box::new(inner_plus())), names, b0) == group);
    let outer = looped(group, Quantifier::OneOrMore);
    let g8a = with_state(with_state(g6));
    let g8b = with_edge(g8a, 6, e, 0);
    let g8c = with_edge(g8b, 5, e, 0);
    let g8d = with_edge(g8c, 5, e, 7);
    assert(g8d =~~= nested_graph());
    assert(outer.build.graph == g8d);
    assert(outer.start == 6 && outer.accept == 7);
    assert(automaton(nested_plus()) == outer);
}

/// A walk goes on along an edge that consumes nothing and is always open.
proof fn lemma_pass(m: Machine, input: Seq<char>, start: int, path: Seq<int>, j: int)
    requires
        walk(m, input, origin(m, start), path) is Some,
        0 <= j < edges_of(m, walk(m, input, origin(m, start), path)->Some_0.state).len(),
        ({
            let label = edges_of(m, walk(m, input, origin(m, start), path)->Some_0.state)[j].0;
            label is Epsilon || label is GroupStart || label is GroupEnd
        }),
    ensures
        walk(m, input, origin(m, start), path.push(j)) is Some,
        walk(m, input, origin(m, start), path.push(j))->Some_0.state == edges_of(
            m,
            walk(m, input, origin(m, start), path)->Some_0.state,
        )[j].1,
        walk(m, input, origin(m, start), path.push(j))->Some_0.pos == walk(
            m,
            input,
            origin(m, start),
            path,
        )->Some_0.pos,
{
    lemma_walk_on(m, input, origin(m, start), path, j);
}

/// A walk goes on along an edge for the character that stands in the
/// input.
proof fn lemma_eat(m: Machine, input: Seq<char>, start: int, path: Seq<int>, j: int, c: char)
    requires
        walk(m, input, origin(m, start), path) is Some,
        0 <= j < edges_of(m, walk(m, input, origin(m, start), path)->Some_0.state).len(),
        edges_of(m, walk(m, input, origin(m, start), path)->Some_0.state)[j].0 == Label::Char(c),
        0 <= walk(m, input, origin(m, start), path)->Some_0.pos < input.len(),
        input[walk(m, input, origin(m, start), path)->Some_0.pos] == c,
    ensures
        walk(m, input, origin(m, start), path.push(j)) is Some,
        walk(m, input, origin(m, start), path.push(j))->Some_0.state == edges_of(
            m,
            walk(m, input, origin(m, start), path)->Some_0.state,
        )[j].1,
        walk(m, input, origin(m, start), path.push(j))->Some_0.pos == walk(
            m,
            input,
            origin(m, start),
            path,
        )->Some_0.pos + 1,
{
    lemma_walk_on(m, input, origin(m, start), path, j);
}

proof fn lemma_into_the_run(flags: ModeFlags, n: nat, k: nat)
    requires
        1 <= k <= n,
    ensures
        walk(
            machine_of(nested_plus(), flags),
            run_of('a', n),
            origin(machine_of(nested_plus(), flags), 0),
            zeros(2 * k + 2),
        ) is Some,
        walk(
            machine_of(nested_plus(), flags),
            run_of('a', n),
            origin(machine_of(nested_plus(), flags), 0),
            zeros(2 * k + 2),
        )->Some_0.state == 2,
        walk(
            machine_of(nested_plus(), flags),
            run_of('a', n),
            origin(machine_of(nested_plus(), flags), 0),
            zeros(2 * k + 2),
        )->Some_0.pos == k,
    decreases k,
{
    let m = machine_of(nested_plus(), flags);
    let input = run_of('a', n);
    lemma_nested_graph();
    assert(m.graph == nested_graph());
    if k == 1 {
        let none_yet = Seq::<int>::empty();
        assert(walk(m, input, origin(m, 0), none_yet) == Some(origin(m, 0)));
        lemma_pass(m, input, 0, none_yet, 0);
        let one_edge = none_yet.push(0);
        lemma_pass(m, input, 0, one_edge, 0);
        let two_edges = one_edge.push(0);
        lemma_pass(m, input, 0, two_edges, 0);
        let three_edges = two_edges.push(0);
        assert(walk(m, input, origin(m, 0), three_edges)->Some_0.state == 1);
        lemma_eat(m, input, 0, three_edges, 0, 'a');
        assert(three_edges.push(0) =~= zeros(4));
    } else {
        lemma_into_the_run(flags, n, (k - 1) as nat);
        let before = zeros((2 * (k - 1) + 2) as nat);
        lemma_pass(m, input, 0, before, 0);
        let back = before.push(0);
        assert(walk(m, input, origin(m, 0), back)->Some_0.state == 1);
        lemma_eat(m, input, 0, back, 0, 'a');
        assert(back.push(0) =~= zeros(2 * k + 2));
    }
}

/// `(a+)+` matches a run of `n` characters `a`, for every `n` of at least
/// 1, from its start to its end.
pub proof fn lemma_nested_plus(flags: ModeFlags, n: nat)
    requires
        n >= 1,
    ensures
        match_at(machine_of(nested_plus(), flags), run_of('a', n), 0) is Some,
        match_at(machine_of(nested_plus(), flags), run_of('a', n), 0)->Some_0.0 == n,
{
    let m = machine_of(nested_plus(), flags);
    let input = run_of('a', n);
    lemma_nested_graph();
    assert(m.graph == nested_graph());
    lemma_into_the_run(flags, n, n);
    let none_yet = zeros(2 * n + 2);
    lemma_pass(m, input, 0, none_yet, 1);
    let one_edge = none_yet.push(1);
    lemma_pass(m, input, 0, one_edge, 0);
    let two_edges = one_edge.push(0);
    lemma_pass(m, input, 0, two_edges, 1);
    let path = two_edges.push(1);
    assert(no_backrefs(ExprView::Literal('a')));
    assert(no_backrefs(inner_plus()));
    assert(no_backrefs(ExprView::Group(Box::new(inner_plus()))));
    assert(no_backrefs(nested_plus()));
    lemma_automaton_plain(nested_plus(), flags);
    lemma_plain_match_complete(m, input, 0, path);
    lemma_match_is_walk(m, input, 0);
    let end = match_at(m, input, 0)->Some_0;
    let found = choose|found: Seq<int>|
        (#[trigger] walk(m, input, origin(m, 0), found)) is Some && walk(
            m,
            input,
            origin(m, 0),
            found,
        )->Some_0.pos == end.0;
    lemma_walk_in_input(m, input, origin(m, 0), found);
}

/// The pattern `(a+)+`, character by character.
pub open spec fn nested_pattern() -> Seq<char> {
    seq!['(', 'a', '+', ')', '+']
}

proof fn lemma_nested_tokens()
    ensures
        tokens_of(nested_pattern()) == seq![
            TokenView::LeftParen,
            TokenView::Literal('a'),
            TokenView::Plus,
            TokenView::RightParen,
            TokenView::Plus,
            TokenView::Eof,
        ],
        dangling_escape(nested_pattern(), 0) is None,
{
    let s = nested_pattern();
    assert(!is_name_char('+'));
    assert(name_run(s, 2) == 0);
    assert(name_run(s, 1) == 0 || name_run(s, 1) == 1);
    assert(token_at(s, 0) == (TokenView::LeftParen, 1int));
    assert(token_at(s, 1) == (TokenView::Literal('a'), 2int));
    assert(token_at(s, 2) == (TokenView::Plus, 3int));
    assert(token_at(s, 3) == (TokenView::RightParen, 4int));
    assert(token_at(s, 4) == (TokenView::Plus, 5int));
    assert(token_at(s, 5) == (TokenView::Eof, 5int));
    assert(tokens_from(s, 5) =~= seq![TokenView::Eof]);
    assert(tokens_from(s, 4) =~= seq![TokenView::Plus, TokenView::Eof]);
    assert(tokens_from(s, 3) =~= seq![TokenView::RightParen, TokenView::Plus, TokenView::Eof]);
    assert(tokens_from(s, 2) =~= seq![
        TokenView::Plus,
        TokenView::RightParen,
        TokenView::Plus,
        TokenView::Eof,
    ]);
    assert(tokens_from(s, 1) =~= seq![
        TokenView::Literal('a'),
        TokenView::Plus,
        TokenView::RightParen,
        TokenView::Plus,
        TokenView::Eof,
    ]);
    assert(tokens_from(s, 0) =~= seq![
        TokenView::LeftParen,
        TokenView::Literal('a'),
        TokenView::Plus,
        TokenView::RightParen,
        TokenView::Plus,
        TokenView::Eof,
    ]);
    assert(dangling_escape(s, 5) is None);
    assert(dangling_escape(s, 4) is None);
    assert(dangling_escape(s, 3) is None);
    assert(dangling_escape(s, 2) is None);
    assert(dangling_escape(s, 1) is None);
    assert(dangling_escape(s, 0) is None);
}

/// The pattern `(a+)+` has the syntax tree [`nested_plus`].
pub proof fn lemma_nested_tree()
    ensures
        pattern_tree(nested_pattern()) == Ok::<ExprView, RegexErrorView>(nested_plus()),
{
    lemma_nested_tokens();
    let ts = tokens_of(nested_pattern());
    let a = ExprView::Literal('a');
    let group = ExprView::Group(Box::new(inner_plus()));
    assert(atom_at(ts, 1) == Ok::<(ExprView, int), ParseErrorView>((a, 2)));
    assert(quantifier_at(ts, 2) == Ok::<(Option<Quantifier>, int), ParseErrorView>(
        (Some(Quantifier::OneOrMore), 3),
    ));
    assert(quantified_at(ts, 1) == Ok::<(ExprView, int), ParseErrorView>((inner_plus(), 3)));
    let one = Seq::<ExprView>::empty().push(inner_plus());
    assert(sequence_rest(ts, 3, one) == Ok::<(ExprView, int), ParseErrorView>((inner_plus(), 3)));
    assert(sequence_rest(ts, 1, Seq::empty()) == Ok::<(ExprView, int), ParseErrorView>(
        (inner_plus(), 3),
    ));
    assert(alternation_rest(ts, 3, seq![inner_plus()]) == Ok::<(ExprView, int), ParseErrorView>(
        (inner_plus(), 3),
    ));
    assert(alternation_at(ts, 1) == Ok::<(ExprView, int), ParseErrorView>((inner_plus(), 3)));
    assert(atom_at(ts, 0) == Ok::<(ExprView, int), ParseErrorView>((group, 4)));
    assert(quantifier_at(ts, 4) == Ok::<(Option<Quantifier>, int), ParseErrorView>(
        (Some(Quantifier::OneOrMore), 5),
    ));
    assert(quantified_at(ts, 0) == Ok::<(ExprView, int), ParseErrorView>((nested_plus(), 5)));
    let whole = Seq::<ExprView>::empty().push(nested_plus());
    assert(sequence_rest(ts, 5, whole) == Ok::<(ExprView, int), ParseErrorView>(
        (nested_plus(), 5),
    ));
    assert(sequence_rest(ts, 0, Seq::empty()) == Ok::<(ExprView, int), ParseErrorView>(
        (nested_plus(), 5),
    ));
    assert(alternation_rest(ts, 5, seq![nested_plus()]) == Ok::<(ExprView, int), ParseErrorView>(
        (nested_plus(), 5),
    ));
    assert(alternation_at(ts, 0) == Ok::<(ExprView, int), ParseErrorView>((nested_plus(), 5)));
    assert(parse_from(ts, 0) == Ok::<ExprView, ParseErrorView>(nested_plus()));
}

/// The pattern `(a+)+` compiles, and finds in every run of `a` of at
/// least one character the whole run.
pub proof fn lemma_nested_plus_matches(flags: ModeFlags, n: nat)
    requires
        n >= 1,
    ensures
        "(a+)+"@ == nested_pattern(),
        compiled(nested_pattern(), flags) == Ok::<Machine, RegexErrorView>(
            machine_of(nested_plus(), flags),
        ),
        found(machine_of(nested_plus(), flags), run_of('a', n), 0) is Some,
        found(machine_of(nested_plus(), flags), run_of('a', n), 0)->Some_0.start == 0,
        found(machine_of(nested_plus(), flags), run_of('a', n), 0)->Some_0.end == n,
{
    reveal_strlit("(a+)+");
    assert("(a+)+"@ =~= nested_pattern());
    lemma_nested_tree();
    lemma_nested_plus(flags, n);
    let names = declared(nested_plus());
    assert(declared(inner_plus()) == declared(ExprView::Literal('a')));
    assert(declared(ExprView::Literal('a')) =~= Names::empty());
    let group = ExprView::Group(Box::new(inner_plus()));
    assert(names == declared(group));
    assert(declared(group) == seq![None::<Seq<char>>] + declared(inner_plus()));
    assert(names =~= seq![None::<Seq<char>>]);
    assert(names.drop_first() =~= Names::empty());
    assert(register_all(Names::empty().push(None::<Seq<char>>), Names::empty()).1 is None);
    assert(register_all(Names::empty(), names).1 is None);
    let m = machine_of(nested_plus(), flags);
    lemma_first_match(m, run_of('a', n), 0);
    assert(first_match(m, run_of('a', n), 0) == Some(0int));
}

} // verus!
