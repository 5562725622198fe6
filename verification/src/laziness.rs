//! Lazy and greedy quantifiers differ in the order of their edges and in
//! nothing else. In a pattern without backreferences the order of the edges
//! decides which captures a match reports, not where the match ends: a
//! pattern and the same pattern with every quantifier made greedy match the
//! same spans.

use crate::ast::{ExprView, Quantifier};
use crate::complete::{lemma_automaton_plain, lemma_plain_match_complete, plain};
use crate::engine::{ModeFlags, machine_of};
use crate::groups::{Names, declared, declared_upto};
use crate::paths::{Config, lemma_match_is_walk, lemma_walk_on, origin, walk};
use crate::pieces::{no_backrefs, no_backrefs_upto};
use crate::simulation::{Machine, crosses, match_at};
use crate::thompson::{
    Build, Edge, Graph, Label, Piece, at_least, automaton, between, branches, chain, empty_build,
    exact, grouped, joined, looped, named_target, optional_copies, pair, repeat, shorthand_label,
    thompson, with_edge, with_state,
};
use vstd::prelude::*;

verus! {

/// The greedy form of a quantifier.
pub open spec fn greedy_quantifier(q: Quantifier) -> Quantifier {
    match q {
        Quantifier::ZeroOrMoreLazy => Quantifier::ZeroOrMore,
        Quantifier::OneOrMoreLazy => Quantifier::OneOrMore,
        Quantifier::AtLeastLazy(n) => Quantifier::AtLeast(n),
        Quantifier::BetweenLazy(n, m) => Quantifier::Between(n, m),
        other => other,
    }
}

/// `e` with every quantifier made greedy. What stands inside a lookaround
/// or a conditional stays as it is.
pub open spec fn greedy(e: ExprView) -> ExprView
    decreases e, 0nat,
{
    match e {
        ExprView::Sequence(es) => ExprView::Sequence(greedy_upto(es, es.len())),
        ExprView::Alternation(es) => ExprView::Alternation(greedy_upto(es, es.len())),
        ExprView::Quantified { expr, quantifier } => ExprView::Quantified {
            expr: Box::new(greedy(*expr)),
            quantifier: greedy_quantifier(quantifier),
        },
        ExprView::Group(inner) => ExprView::Group(Box::new(greedy(*inner))),
        ExprView::NonCapturingGroup(inner) => ExprView::NonCapturingGroup(Box::new(greedy(*inner))),
        ExprView::NamedGroup { name, pattern } => ExprView::NamedGroup {
            name,
            pattern: Box::new(greedy(*pattern)),
        },
        ExprView::AtomicGroup(inner) => ExprView::AtomicGroup(Box::new(greedy(*inner))),
        other => other,
    }
}

/// The greedy forms of the first `n` expressions of `es`.
pub open spec fn greedy_upto(es: Seq<ExprView>, n: nat) -> Seq<ExprView>
    decreases es, n,
{
    if n == 0 || n > es.len() {
        Seq::empty()
    } else {
        greedy_upto(es, (n - 1) as nat).push(greedy(es[n - 1]))
    }
}

/// `g` and `h` have the same states, and each state has the same edges in
/// both, in whatever order.
pub open spec fn same_edges(g: Graph, h: Graph) -> bool {
    &&& g.len() == h.len()
    &&& forall|s: int, x: Edge|
        0 <= s < g.len() ==> (#[trigger] g[s].contains(x) <==> #[trigger] h[s].contains(x))
}

/// The pieces `p` and `q` have the same entry, the same exit and the same
/// edges, and have numbered as many groups.
pub open spec fn same_piece(p: Piece, q: Piece) -> bool {
    &&& same_edges(p.build.graph, q.build.graph)
    &&& p.start == q.start
    &&& p.accept == q.accept
    &&& p.build.next_group == q.build.next_group
}

proof fn lemma_contains_push(s: Seq<Edge>, e: Edge, x: Edge)
    ensures
        s.push(e).contains(x) <==> (s.contains(x) || x == e),
{
    let longer = s.push(e);
    if s.contains(x) {
        let i = choose|i: int| 0 <= i < s.len() && s[i] == x;
        assert(longer[i] == x);
    }
    if x == e {
        assert(longer[s.len() as int] == x);
    }
    if longer.contains(x) {
        let i = choose|i: int| 0 <= i < longer.len() && longer[i] == x;
        if i < s.len() {
            assert(s[i] == x);
        }
    }
}

proof fn lemma_same_state(g: Graph, h: Graph)
    requires
        same_edges(g, h),
    ensures
        same_edges(with_state(g), with_state(h)),
{
    let g2 = with_state(g);
    let h2 = with_state(h);
    assert forall|s: int, x: Edge| 0 <= s < g2.len() implies (#[trigger] g2[s].contains(x)
        <==> #[trigger] h2[s].contains(x)) by {
        if s < g.len() {
            assert(g2[s] == g[s]);
            assert(h2[s] == h[s]);
            assert(g[s].contains(x) <==> h[s].contains(x));
        } else {
            assert(g2[s] =~= Seq::<Edge>::empty());
            assert(h2[s] =~= Seq::<Edge>::empty());
        }
    }
}

proof fn lemma_same_edge(g: Graph, h: Graph, from: int, label: Label, to: int)
    requires
        same_edges(g, h),
    ensures
        same_edges(with_edge(g, from, label, to), with_edge(h, from, label, to)),
{
    let g2 = with_edge(g, from, label, to);
    let h2 = with_edge(h, from, label, to);
    assert forall|s: int, x: Edge| 0 <= s < g2.len() implies (#[trigger] g2[s].contains(x)
        <==> #[trigger] h2[s].contains(x)) by {
        assert(g[s].contains(x) <==> h[s].contains(x));
        if s == from {
            lemma_contains_push(g[s], (label, to), x);
            lemma_contains_push(h[s], (label, to), x);
        }
    }
}

proof fn lemma_same_swapped(g: Graph, h: Graph, from: int, a: Label, to_a: int, b: Label, to_b: int)
    requires
        same_edges(g, h),
    ensures
        same_edges(
            with_edge(with_edge(g, from, a, to_a), from, b, to_b),
            with_edge(with_edge(h, from, b, to_b), from, a, to_a),
        ),
{
    let g1 = with_edge(g, from, a, to_a);
    let g2 = with_edge(g1, from, b, to_b);
    let h1 = with_edge(h, from, b, to_b);
    let h2 = with_edge(h1, from, a, to_a);
    assert forall|s: int, x: Edge| 0 <= s < g2.len() implies (#[trigger] g2[s].contains(x)
        <==> #[trigger] h2[s].contains(x)) by {
        assert(g[s].contains(x) <==> h[s].contains(x));
        if s == from {
            lemma_contains_push(g[s], (a, to_a), x);
            lemma_contains_push(g1[s], (b, to_b), x);
            lemma_contains_push(h[s], (b, to_b), x);
            lemma_contains_push(h1[s], (a, to_a), x);
        }
    }
}

proof fn lemma_same_pair(b: Build, c: Build, label: Label)
    requires
        same_edges(b.graph, c.graph),
        b.next_group == c.next_group,
    ensures
        same_piece(pair(b, label), pair(c, label)),
{
    lemma_same_state(b.graph, c.graph);
    lemma_same_state(with_state(b.graph), with_state(c.graph));
    lemma_same_edge(
        with_state(with_state(b.graph)),
        with_state(with_state(c.graph)),
        b.graph.len() as int,
        label,
        b.graph.len() as int + 1,
    );
}

proof fn lemma_same_joined(p: Piece, c: Piece, pg: Piece, cg: Piece)
    requires
        same_piece(p, pg),
        same_piece(c, cg),
    ensures
        same_piece(joined(p, c), joined(pg, cg)),
{
    lemma_same_edge(c.build.graph, cg.build.graph, p.accept, Label::Epsilon, c.start);
}

/// A loop and its greedy form have the same edges.
proof fn lemma_same_looped(p: Piece, pg: Piece, q: Quantifier)
    requires
        same_piece(p, pg),
        q is ZeroOrMore || q is ZeroOrMoreLazy || q is OneOrMore || q is OneOrMoreLazy
            || q is Optional,
    ensures
        same_piece(looped(p, q), looped(pg, greedy_quantifier(q))),
{
    let s = p.build.graph.len() as int;
    let a = s + 1;
    let e = Label::Epsilon;
    lemma_same_state(p.build.graph, pg.build.graph);
    lemma_same_state(with_state(p.build.graph), with_state(pg.build.graph));
    let g = with_state(with_state(p.build.graph));
    let h = with_state(with_state(pg.build.graph));
    match q {
        Quantifier::ZeroOrMore => {
            lemma_same_edge(g, h, s, e, p.start);
            let g1 = with_edge(g, s, e, p.start);
            let h1 = with_edge(h, s, e, p.start);
            lemma_same_edge(g1, h1, s, e, a);
            let g2 = with_edge(g1, s, e, a);
            let h2 = with_edge(h1, s, e, a);
            lemma_same_edge(g2, h2, p.accept, e, p.start);
            let g3 = with_edge(g2, p.accept, e, p.start);
            let h3 = with_edge(h2, p.accept, e, p.start);
            lemma_same_edge(g3, h3, p.accept, e, a);
        },
        Quantifier::ZeroOrMoreLazy => {
            lemma_same_swapped(g, h, s, e, a, e, p.start);
            let g2 = with_edge(with_edge(g, s, e, a), s, e, p.start);
            let h2 = with_edge(with_edge(h, s, e, p.start), s, e, a);
            lemma_same_swapped(g2, h2, p.accept, e, a, e, p.start);
        },
        Quantifier::OneOrMore => {
            lemma_same_edge(g, h, s, e, p.start);
            let g1 = with_edge(g, s, e, p.start);
            let h1 = with_edge(h, s, e, p.start);
            lemma_same_edge(g1, h1, p.accept, e, p.start);
            let g2 = with_edge(g1, p.accept, e, p.start);
            let h2 = with_edge(h1, p.accept, e, p.start);
            lemma_same_edge(g2, h2, p.accept, e, a);
        },
        Quantifier::OneOrMoreLazy => {
            lemma_same_edge(g, h, s, e, p.start);
            let g1 = with_edge(g, s, e, p.start);
            let h1 = with_edge(h, s, e, p.start);
            lemma_same_swapped(g1, h1, p.accept, e, a, e, p.start);
        },
        _ => {
            lemma_same_edge(g, h, s, e, p.start);
            let g1 = with_edge(g, s, e, p.start);
            let h1 = with_edge(h, s, e, p.start);
            lemma_same_edge(g1, h1, s, e, a);
            let g2 = with_edge(g1, s, e, a);
            let h2 = with_edge(h1, s, e, a);
            lemma_same_edge(g2, h2, p.accept, e, a);
        },
    }
}

proof fn lemma_greedy_items(es: Seq<ExprView>, n: nat)
    requires
        n <= es.len(),
    ensures
        greedy_upto(es, n).len() == n,
        forall|i: int| 0 <= i < n ==> #[trigger] greedy_upto(es, n)[i] == greedy(es[i]),
    decreases n,
{
    if n > 0 {
        lemma_greedy_items(es, (n - 1) as nat);
        assert(greedy_upto(es, n) == greedy_upto(es, (n - 1) as nat).push(greedy(es[n - 1])));
    }
}

/// The greedy form of an expression declares the groups of the expression,
/// and holds a backreference just if the expression does.
pub proof fn lemma_greedy_declares(e: ExprView)
    ensures
        declared(greedy(e)) == declared(e),
        no_backrefs(greedy(e)) == no_backrefs(e),
    decreases e, 0nat,
{
    match e {
        ExprView::Sequence(es) => {
            lemma_greedy_items(es, es.len());
            lemma_greedy_upto_declares(es, es.len());
        },
        ExprView::Alternation(es) => {
            lemma_greedy_items(es, es.len());
            lemma_greedy_upto_declares(es, es.len());
        },
        ExprView::Quantified { expr, quantifier } => {
            lemma_greedy_declares(*expr);
        },
        ExprView::Group(inner) => {
            lemma_greedy_declares(*inner);
        },
        ExprView::NonCapturingGroup(inner) => {
            lemma_greedy_declares(*inner);
        },
        ExprView::NamedGroup { name, pattern } => {
            lemma_greedy_declares(*pattern);
        },
        ExprView::AtomicGroup(inner) => {
            lemma_greedy_declares(*inner);
        },
        _ => {},
    }
}

proof fn lemma_greedy_upto_declares(es: Seq<ExprView>, k: nat)
    requires
        k <= es.len(),
    ensures
        declared_upto(greedy_upto(es, es.len()), k) == declared_upto(es, k),
        no_backrefs_upto(greedy_upto(es, es.len()), k) == no_backrefs_upto(es, k),
    decreases es, k,
{
    let gs = greedy_upto(es, es.len());
    lemma_greedy_items(es, es.len());
    if k > 0 {
        lemma_greedy_upto_declares(es, (k - 1) as nat);
        lemma_greedy_declares(es[k - 1]);
        assert(gs[k - 1] == greedy(es[k - 1]));
    } else {
        assert(declared_upto(gs, 0) =~= declared_upto(es, 0));
    }
}

/// The piece of an expression and the piece of its greedy form have the
/// same entry, the same exit and the same edges.
pub proof fn lemma_greedy_same(e: ExprView, names: Names, b: Build, c: Build)
    requires
        same_edges(b.graph, c.graph),
        b.next_group == c.next_group,
    ensures
        same_piece(thompson(e, names, b), thompson(greedy(e), names, c)),
    decreases e, 0nat, 0nat,
{
    match e {
        ExprView::Empty => lemma_same_pair(b, c, Label::Epsilon),
        ExprView::Literal(ch) => lemma_same_pair(b, c, Label::Char(ch)),
        ExprView::Any => lemma_same_pair(b, c, Label::Any),
        ExprView::Sequence(es) => {
            lemma_greedy_items(es, es.len());
            if es.len() == 0 {
                lemma_same_pair(b, c, Label::Epsilon);
            } else {
                lemma_same_chain(es, names, b, c, es.len());
            }
        },
        ExprView::Alternation(es) => {
            lemma_greedy_items(es, es.len());
            if es.len() == 0 {
                lemma_same_pair(b, c, Label::Epsilon);
            } else if es.len() == 1 {
                lemma_greedy_same(es[0], names, b, c);
            } else {
                let s = b.graph.len() as int;
                lemma_same_state(b.graph, c.graph);
                lemma_same_state(with_state(b.graph), with_state(c.graph));
                let around_b = Build {
                    graph: with_state(with_state(b.graph)),
                    next_group: b.next_group,
                };
                let around_c = Build {
                    graph: with_state(with_state(c.graph)),
                    next_group: c.next_group,
                };
                lemma_same_branches(es, names, around_b, around_c, s, s + 1, es.len());
            }
        },
        ExprView::CharacterClass(cc) => lemma_same_pair(
            b,
            c,
            Label::Class { negated: cc.negated, items: cc.items },
        ),
        ExprView::Quantified { expr, quantifier } => match quantifier {
            Quantifier::Exactly(n) => lemma_same_exact(*expr, names, b, c, n as nat),
            Quantifier::AtLeast(n) => lemma_same_at_least(*expr, names, b, c, n as nat, false),
            Quantifier::AtLeastLazy(n) => lemma_same_at_least(*expr, names, b, c, n as nat, true),
            Quantifier::Between(n, m) => lemma_same_between(
                *expr,
                names,
                b,
                c,
                n as nat,
                m as nat,
                false,
            ),
            Quantifier::BetweenLazy(n, m) => lemma_same_between(
                *expr,
                names,
                b,
                c,
                n as nat,
                m as nat,
                true,
            ),
            q => {
                lemma_greedy_same(*expr, names, b, c);
                lemma_same_looped(
                    thompson(*expr, names, b),
                    thompson(greedy(*expr), names, c),
                    q,
                );
            },
        },
        ExprView::Group(inner) => lemma_same_grouped(*inner, names, b, c),
        ExprView::NamedGroup { name, pattern } => lemma_same_grouped(*pattern, names, b, c),
        ExprView::NonCapturingGroup(inner) => lemma_greedy_same(*inner, names, b, c),
        ExprView::AtomicGroup(inner) => lemma_greedy_same(*inner, names, b, c),
        ExprView::StartAnchor => lemma_same_pair(b, c, Label::StartAnchor),
        ExprView::EndAnchor => lemma_same_pair(b, c, Label::EndAnchor),
        ExprView::Backreference(n) => lemma_same_pair(b, c, Label::Backref(n)),
        ExprView::RelativeBackreference(n) => lemma_same_pair(b, c, Label::BackrefRelative(n)),
        ExprView::NamedBackreference(name) => lemma_same_pair(
            b,
            c,
            Label::Backref(named_target(names, name)),
        ),
        ExprView::Shorthand(ch) => lemma_same_pair(b, c, shorthand_label(ch)),
        ExprView::WordBoundary => lemma_same_pair(b, c, Label::WordBoundary),
        ExprView::NonWordBoundary => lemma_same_pair(b, c, Label::NonWordBoundary),
        ExprView::Lookahead(_) => lemma_same_pair(b, c, Label::Epsilon),
        ExprView::NegativeLookahead(_) => lemma_same_pair(b, c, Label::Epsilon),
        ExprView::Lookbehind(_) => lemma_same_pair(b, c, Label::Epsilon),
        ExprView::NegativeLookbehind(_) => lemma_same_pair(b, c, Label::Epsilon),
        ExprView::ConditionalGroup(_) => lemma_same_pair(b, c, Label::Epsilon),
    }
}

proof fn lemma_same_grouped(inner: ExprView, names: Names, b: Build, c: Build)
    requires
        same_edges(b.graph, c.graph),
        b.next_group == c.next_group,
    ensures
        same_piece(grouped(inner, names, b), grouped(greedy(inner), names, c)),
    decreases inner, 1nat, 0nat,
{
    let id = b.next_group as u32;
    let start = b.graph.len() as int;
    lemma_same_state(b.graph, c.graph);
    let first_b = Build { graph: with_state(b.graph), next_group: b.next_group + 1 };
    let first_c = Build { graph: with_state(c.graph), next_group: c.next_group + 1 };
    lemma_greedy_same(inner, names, first_b, first_c);
    let p = thompson(inner, names, first_b);
    let q = thompson(greedy(inner), names, first_c);
    let accept = p.build.graph.len() as int;
    lemma_same_state(p.build.graph, q.build.graph);
    let g = with_state(p.build.graph);
    let h = with_state(q.build.graph);
    lemma_same_edge(g, h, start, Label::GroupStart(id), p.start);
    let g1 = with_edge(g, start, Label::GroupStart(id), p.start);
    let h1 = with_edge(h, start, Label::GroupStart(id), p.start);
    lemma_same_edge(g1, h1, p.accept, Label::GroupEnd(id), accept);
}

proof fn lemma_same_chain(es: Seq<ExprView>, names: Names, b: Build, c: Build, k: nat)
    requires
        same_edges(b.graph, c.graph),
        b.next_group == c.next_group,
        1 <= k <= es.len(),
    ensures
        same_piece(chain(es, names, b, k), chain(greedy_upto(es, es.len()), names, c, k)),
    decreases es, 0nat, k,
{
    let gs = greedy_upto(es, es.len());
    lemma_greedy_items(es, es.len());
    if k == 1 {
        lemma_greedy_same(es[0], names, b, c);
    } else {
        lemma_same_chain(es, names, b, c, (k - 1) as nat);
        let p = chain(es, names, b, (k - 1) as nat);
        let q = chain(gs, names, c, (k - 1) as nat);
        lemma_greedy_same(es[k - 1], names, p.build, q.build);
        assert(gs[k - 1] == greedy(es[k - 1]));
        lemma_same_joined(
            p,
            thompson(es[k - 1], names, p.build),
            q,
            thompson(gs[k - 1], names, q.build),
        );
    }
}

proof fn lemma_same_branches(
    es: Seq<ExprView>,
    names: Names,
    b: Build,
    c: Build,
    start: int,
    accept: int,
    k: nat,
)
    requires
        same_edges(b.graph, c.graph),
        b.next_group == c.next_group,
        k <= es.len(),
    ensures
        same_edges(
            branches(es, names, b, start, accept, k).graph,
            branches(greedy_upto(es, es.len()), names, c, start, accept, k).graph,
        ),
        branches(es, names, b, start, accept, k).next_group == branches(
            greedy_upto(es, es.len()),
            names,
            c,
            start,
            accept,
            k,
        ).next_group,
    decreases es, 0nat, k,
{
    let gs = greedy_upto(es, es.len());
    lemma_greedy_items(es, es.len());
    if k > 0 {
        lemma_same_branches(es, names, b, c, start, accept, (k - 1) as nat);
        let prev_b = branches(es, names, b, start, accept, (k - 1) as nat);
        let prev_c = branches(gs, names, c, start, accept, (k - 1) as nat);
        lemma_greedy_same(es[k - 1], names, prev_b, prev_c);
        assert(gs[k - 1] == greedy(es[k - 1]));
        let p = thompson(es[k - 1], names, prev_b);
        let q = thompson(gs[k - 1], names, prev_c);
        lemma_same_edge(p.build.graph, q.build.graph, start, Label::Epsilon, p.start);
        let g1 = with_edge(p.build.graph, start, Label::Epsilon, p.start);
        let h1 = with_edge(q.build.graph, start, Label::Epsilon, p.start);
        lemma_same_edge(g1, h1, p.accept, Label::Epsilon, accept);
    }
}

proof fn lemma_same_repeat(e: ExprView, names: Names, b: Build, c: Build, k: nat)
    requires
        same_edges(b.graph, c.graph),
        b.next_group == c.next_group,
    ensures
        same_piece(repeat(e, names, b, k), repeat(greedy(e), names, c, k)),
    decreases e, 1nat, k,
{
    if k <= 1 {
        lemma_greedy_same(e, names, b, c);
    } else {
        lemma_same_repeat(e, names, b, c, (k - 1) as nat);
        let p = repeat(e, names, b, (k - 1) as nat);
        let q = repeat(greedy(e), names, c, (k - 1) as nat);
        let again_b = Build { graph: p.build.graph, next_group: b.next_group };
        let again_c = Build { graph: q.build.graph, next_group: c.next_group };
        lemma_greedy_same(e, names, again_b, again_c);
        lemma_same_joined(
            p,
            thompson(e, names, again_b),
            q,
            thompson(greedy(e), names, again_c),
        );
    }
}

proof fn lemma_same_exact(e: ExprView, names: Names, b: Build, c: Build, n: nat)
    requires
        same_edges(b.graph, c.graph),
        b.next_group == c.next_group,
    ensures
        same_piece(exact(e, names, b, n), exact(greedy(e), names, c, n)),
    decreases e, 2nat, 0nat,
{
    if n == 0 {
        lemma_greedy_declares(e);
        lemma_same_pair(
            Build { graph: b.graph, next_group: b.next_group + declared(e).len() },
            Build { graph: c.graph, next_group: c.next_group + declared(greedy(e)).len() },
            Label::Epsilon,
        );
    } else {
        lemma_same_repeat(e, names, b, c, n);
    }
}

proof fn lemma_same_at_least(e: ExprView, names: Names, b: Build, c: Build, n: nat, lazy: bool)
    requires
        same_edges(b.graph, c.graph),
        b.next_group == c.next_group,
    ensures
        same_piece(at_least(e, names, b, n, lazy), at_least(greedy(e), names, c, n, false)),
    decreases e, 3nat, 0nat,
{
    lemma_same_exact(e, names, b, c, n);
    let head_b = exact(e, names, b, n);
    let head_c = exact(greedy(e), names, c, n);
    let again_b = Build { graph: head_b.build.graph, next_group: b.next_group };
    let again_c = Build { graph: head_c.build.graph, next_group: c.next_group };
    lemma_greedy_same(e, names, again_b, again_c);
    let q = if lazy {
        Quantifier::ZeroOrMoreLazy
    } else {
        Quantifier::ZeroOrMore
    };
    lemma_same_looped(thompson(e, names, again_b), thompson(greedy(e), names, again_c), q);
    lemma_same_joined(
        head_b,
        looped(thompson(e, names, again_b), q),
        head_c,
        looped(thompson(greedy(e), names, again_c), Quantifier::ZeroOrMore),
    );
}

proof fn lemma_same_optional(
    e: ExprView,
    names: Names,
    g: Graph,
    h: Graph,
    first_group: int,
    lazy: bool,
    exit: int,
    prev: int,
    k: nat,
)
    requires
        same_edges(g, h),
    ensures
        same_edges(
            optional_copies(e, names, g, first_group, lazy, exit, prev, k).0,
            optional_copies(greedy(e), names, h, first_group, false, exit, prev, k).0,
        ),
        optional_copies(e, names, g, first_group, lazy, exit, prev, k).1 == optional_copies(
            greedy(e),
            names,
            h,
            first_group,
            false,
            exit,
            prev,
            k,
        ).1,
    decreases e, 1nat, k,
{
    if k > 0 {
        lemma_same_optional(e, names, g, h, first_group, lazy, exit, prev, (k - 1) as nat);
        let (g1, last) = optional_copies(
            e,
            names,
            g,
            first_group,
            lazy,
            exit,
            prev,
            (k - 1) as nat,
        );
        let (h1, last2) = optional_copies(
            greedy(e),
            names,
            h,
            first_group,
            false,
            exit,
            prev,
            (k - 1) as nat,
        );
        let again_b = Build { graph: g1, next_group: first_group };
        let again_c = Build { graph: h1, next_group: first_group };
        lemma_greedy_same(e, names, again_b, again_c);
        let p = thompson(e, names, again_b);
        let q = thompson(greedy(e), names, again_c);
        if lazy {
            lemma_same_swapped(
                p.build.graph,
                q.build.graph,
                last,
                Label::Epsilon,
                exit,
                Label::Epsilon,
                p.start,
            );
        } else {
            lemma_same_edge(p.build.graph, q.build.graph, last, Label::Epsilon, p.start);
            lemma_same_edge(
                with_edge(p.build.graph, last, Label::Epsilon, p.start),
                with_edge(q.build.graph, last, Label::Epsilon, p.start),
                last,
                Label::Epsilon,
                exit,
            );
        }
    }
}

proof fn lemma_same_between(
    e: ExprView,
    names: Names,
    b: Build,
    c: Build,
    n: nat,
    m: nat,
    lazy: bool,
)
    requires
        same_edges(b.graph, c.graph),
        b.next_group == c.next_group,
    ensures
        same_piece(between(e, names, b, n, m, lazy), between(greedy(e), names, c, n, m, false)),
    decreases e, 3nat, 0nat,
{
    lemma_same_exact(e, names, b, c, n);
    if m > n {
        let head_b = exact(e, names, b, n);
        let head_c = exact(greedy(e), names, c, n);
        let s = head_b.build.graph.len() as int;
        let a = s + 1;
        lemma_same_state(head_b.build.graph, head_c.build.graph);
        lemma_same_state(with_state(head_b.build.graph), with_state(head_c.build.graph));
        let g2 = with_state(with_state(head_b.build.graph));
        let h2 = with_state(with_state(head_c.build.graph));
        lemma_same_edge(g2, h2, s, Label::Epsilon, head_b.start);
        let g = with_edge(g2, s, Label::Epsilon, head_b.start);
        let h = with_edge(h2, s, Label::Epsilon, head_b.start);
        lemma_same_optional(e, names, g, h, b.next_group, lazy, a, head_b.accept, (m - n) as nat);
        let (copies_b, last) = optional_copies(
            e,
            names,
            g,
            b.next_group,
            lazy,
            a,
            head_b.accept,
            (m - n) as nat,
        );
        let (copies_c, last2) = optional_copies(
            greedy(e),
            names,
            h,
            c.next_group,
            false,
            a,
            head_c.accept,
            (m - n) as nat,
        );
        lemma_same_edge(copies_b, copies_c, last, Label::Epsilon, a);
    }
}

/// A walk through an automaton is a walk through every automaton with the
/// same edges: it ends in the same state, at the same position, with the
/// same captures.
pub proof fn lemma_walk_same_edges(m: Machine, n: Machine, input: Seq<char>, c: Config, path: Seq<int>)
    requires
        same_edges(m.graph, n.graph),
        m.names == n.names,
        m.flags == n.flags,
        walk(m, input, c, path) is Some,
    ensures
        exists|other: Seq<int>| #[trigger] walk(n, input, c, other) == walk(m, input, c, path),
    decreases path.len(),
{
    if path.len() == 0 {
        assert(walk(n, input, c, Seq::<int>::empty()) == Some(c));
    } else {
        let before = walk(m, input, c, path.drop_last())->Some_0;
        lemma_walk_same_edges(m, n, input, c, path.drop_last());
        let shorter = choose|other: Seq<int>| #[trigger]
            walk(n, input, c, other) == walk(m, input, c, path.drop_last());
        let j = path.last();
        let edge = m.graph[before.state][j];
        assert(m.graph[before.state].contains(edge));
        assert(n.graph[before.state].contains(edge));
        let k = choose|k: int| 0 <= k < n.graph[before.state].len() && n.graph[before.state][k] == edge;
        assert(crosses(m, input, before.pos, edge.0, before.caps) == crosses(
            n,
            input,
            before.pos,
            edge.0,
            before.caps,
        ));
        lemma_walk_on(n, input, c, shorter, k);
        assert(walk(n, input, c, shorter.push(k)) == walk(m, input, c, path));
    }
}

proof fn lemma_span_reaches(m: Machine, n: Machine, input: Seq<char>, start: int)
    requires
        plain(n),
        same_edges(m.graph, n.graph),
        m.start == n.start,
        m.accept == n.accept,
        m.names == n.names,
        m.flags == n.flags,
        0 <= start <= input.len(),
        match_at(m, input, start) is Some,
    ensures
        match_at(n, input, start) is Some,
        match_at(n, input, start)->Some_0.0 >= match_at(m, input, start)->Some_0.0,
{
    lemma_match_is_walk(m, input, start);
    let end = match_at(m, input, start)->Some_0;
    let path = choose|path: Seq<int>| #[trigger]
        walk(m, input, origin(m, start), path) == Some(
            Config { state: m.accept, pos: end.0, caps: end.1 },
        );
    lemma_walk_same_edges(m, n, input, origin(m, start), path);
    let other = choose|other: Seq<int>| #[trigger]
        walk(n, input, origin(m, start), other) == walk(m, input, origin(m, start), path);
    assert(origin(m, start) == origin(n, start));
    lemma_plain_match_complete(n, input, start, other);
}

/// Two automata without backreferences that have the same edges match the
/// same spans: at every start both have a match or neither has, and the
/// matches end at the same position.
pub proof fn lemma_same_edges_same_span(m: Machine, n: Machine, input: Seq<char>, start: int)
    requires
        plain(m),
        plain(n),
        same_edges(m.graph, n.graph),
        m.start == n.start,
        m.accept == n.accept,
        m.names == n.names,
        m.flags == n.flags,
        0 <= start <= input.len(),
    ensures
        match_at(m, input, start) is Some <==> match_at(n, input, start) is Some,
        match_at(m, input, start) is Some ==> match_at(m, input, start)->Some_0.0 == match_at(
            n,
            input,
            start,
        )->Some_0.0,
{
    if match_at(m, input, start) is Some {
        lemma_span_reaches(m, n, input, start);
    }
    if match_at(n, input, start) is Some {
        assert(same_edges(n.graph, m.graph));
        lemma_span_reaches(n, m, input, start);
    }
}

/// In a pattern without backreferences, laziness changes no span: the
/// pattern and its greedy form match at the same starts, and their matches
/// end at the same positions.
pub proof fn lemma_laziness_keeps_spans(e: ExprView, flags: ModeFlags, input: Seq<char>, start: int)
    requires
        no_backrefs(e),
        0 <= start <= input.len(),
    ensures
        match_at(machine_of(e, flags), input, start) is Some <==> match_at(
            machine_of(greedy(e), flags),
            input,
            start,
        ) is Some,
        match_at(machine_of(e, flags), input, start) is Some ==> match_at(
            machine_of(e, flags),
            input,
            start,
        )->Some_0.0 == match_at(machine_of(greedy(e), flags), input, start)->Some_0.0,
{
    lemma_greedy_declares(e);
    lemma_automaton_plain(e, flags);
    lemma_automaton_plain(greedy(e), flags);
    lemma_greedy_same(e, declared(e), empty_build(), empty_build());
    lemma_same_edges_same_span(machine_of(e, flags), machine_of(greedy(e), flags), input, start);
}

} // verus!
