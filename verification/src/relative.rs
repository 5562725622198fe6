//! A relative backreference written as the backreference to the group that
//! it stands for: the pattern matches as before.

use crate::alike::{alike, crossed_alike, lemma_match_alike, numeric_label};
use crate::ast::{ExprView, Quantifier};
use crate::engine::{ModeFlags, machine_of};
use crate::groups::{Names, declared, declared_upto, lemma_relative_is_numeric, resolve_relative};
use crate::simulation::{Caps, crosses, match_at};
use crate::thompson::{
    Build, Graph, Label, Piece, at_least, between, branches, chain, empty_build, exact, grouped,
    joined, looped, named_target, optional_copies, pair, repeat, shorthand_label, thompson,
    with_edge, with_state,
};
use vstd::prelude::*;

verus! {

/// `e` with every relative backreference that stands for a group of
/// `names` written as the backreference to that group. What stands inside
/// a lookaround or a conditional stays as it is.
pub open spec fn numeric(e: ExprView, names: Names) -> ExprView
    decreases e, 0nat,
{
    match e {
        ExprView::RelativeBackreference(r) => match resolve_relative(names, r as int) {
            Some(group) => ExprView::Backreference(group),
            None => e,
        },
        ExprView::Sequence(es) => ExprView::Sequence(numeric_upto(es, names, es.len())),
        ExprView::Alternation(es) => ExprView::Alternation(numeric_upto(es, names, es.len())),
        ExprView::Quantified { expr, quantifier } => ExprView::Quantified {
            expr: Box::new(numeric(*expr, names)),
            quantifier,
        },
        ExprView::Group(inner) => ExprView::Group(Box::new(numeric(*inner, names))),
        ExprView::NonCapturingGroup(inner) => ExprView::NonCapturingGroup(
            Box::new(numeric(*inner, names)),
        ),
        ExprView::NamedGroup { name, pattern } => ExprView::NamedGroup {
            name,
            pattern: Box::new(numeric(*pattern, names)),
        },
        ExprView::AtomicGroup(inner) => ExprView::AtomicGroup(Box::new(numeric(*inner, names))),
        other => other,
    }
}

/// The first `n` expressions of `es`, each as [`numeric`] writes it.
pub open spec fn numeric_upto(es: Seq<ExprView>, names: Names, n: nat) -> Seq<ExprView>
    decreases es, n,
{
    if n == 0 || n > es.len() {
        Seq::empty()
    } else {
        numeric_upto(es, names, (n - 1) as nat).push(numeric(es[n - 1], names))
    }
}

/// `h` is `g` with every relative backreference replaced by the
/// backreference to the group of `names` that it stands for.
pub open spec fn renumbered(names: Names, g: Graph, h: Graph) -> bool {
    &&& g.len() == h.len()
    &&& forall|s: int| 0 <= s < g.len() ==> (#[trigger] g[s]).len() == h[s].len()
    &&& forall|s: int, j: int|
        0 <= s < g.len() && 0 <= j < g[s].len() ==> (#[trigger] g[s][j]).1 == h[s][j].1
            && h[s][j].0 == numeric_label(names, g[s][j].0)
}

/// The piece `q` is the piece `p` with its relative backreferences
/// replaced.
pub open spec fn renumbered_piece(names: Names, p: Piece, q: Piece) -> bool {
    &&& renumbered(names, p.build.graph, q.build.graph)
    &&& p.start == q.start
    &&& p.accept == q.accept
    &&& p.build.next_group == q.build.next_group
}

proof fn lemma_numeric_state(names: Names, g: Graph, h: Graph)
    requires
        renumbered(names, g, h),
    ensures
        renumbered(names, with_state(g), with_state(h)),
{
    let g2 = with_state(g);
    let h2 = with_state(h);
    assert forall|s: int| 0 <= s < g2.len() implies (#[trigger] g2[s]).len() == h2[s].len() by {
        if s < g.len() {
            assert(g2[s] == g[s]);
            assert(h2[s] == h[s]);
        }
    }
    assert forall|s: int, j: int| 0 <= s < g2.len() && 0 <= j < g2[s].len() implies (
    #[trigger] g2[s][j]).1 == h2[s][j].1 && h2[s][j].0 == numeric_label(names, g2[s][j].0) by {
        assert(g2[s] == g[s]);
        assert(h2[s] == h[s]);
        assert(g[s][j].1 == h[s][j].1);
    }
}

proof fn lemma_numeric_edge(names: Names, g: Graph, h: Graph, from: int, label: Label, to: int)
    requires
        renumbered(names, g, h),
    ensures
        renumbered(
            names,
            with_edge(g, from, label, to),
            with_edge(h, from, numeric_label(names, label), to),
        ),
{
    let g2 = with_edge(g, from, label, to);
    let h2 = with_edge(h, from, numeric_label(names, label), to);
    assert forall|s: int| 0 <= s < g2.len() implies (#[trigger] g2[s]).len() == h2[s].len() by {
        assert(g[s].len() == h[s].len());
    }
    assert forall|s: int, j: int| 0 <= s < g2.len() && 0 <= j < g2[s].len() implies (
    #[trigger] g2[s][j]).1 == h2[s][j].1 && h2[s][j].0 == numeric_label(names, g2[s][j].0) by {
        assert(g[s].len() == h[s].len());
        if s == from && j == g[s].len() {
        } else {
            assert(g2[s][j] == g[s][j]);
            assert(h2[s][j] == h[s][j]);
            assert(g[s][j].1 == h[s][j].1);
        }
    }
}

proof fn lemma_numeric_pair(names: Names, b: Build, c: Build, label: Label)
    requires
        renumbered(names, b.graph, c.graph),
        b.next_group == c.next_group,
    ensures
        renumbered_piece(names, pair(b, label), pair(c, numeric_label(names, label))),
{
    lemma_numeric_state(names, b.graph, c.graph);
    lemma_numeric_state(names, with_state(b.graph), with_state(c.graph));
    lemma_numeric_edge(
        names,
        with_state(with_state(b.graph)),
        with_state(with_state(c.graph)),
        b.graph.len() as int,
        label,
        b.graph.len() as int + 1,
    );
}

proof fn lemma_numeric_joined(names: Names, p: Piece, c: Piece, twin: Piece, after: Piece)
    requires
        p.accept == twin.accept,
        p.start == twin.start,
        renumbered_piece(names, c, after),
    ensures
        renumbered_piece(names, joined(p, c), joined(twin, after)),
{
    lemma_numeric_edge(names, c.build.graph, after.build.graph, p.accept, Label::Epsilon, c.start);
}

proof fn lemma_numeric_looped(names: Names, p: Piece, twin: Piece, q: Quantifier)
    requires
        renumbered_piece(names, p, twin),
    ensures
        renumbered_piece(names, looped(p, q), looped(twin, q)),
{
    let s = p.build.graph.len() as int;
    let a = s + 1;
    let e = Label::Epsilon;
    lemma_numeric_state(names, p.build.graph, twin.build.graph);
    lemma_numeric_state(names, with_state(p.build.graph), with_state(twin.build.graph));
    let g = with_state(with_state(p.build.graph));
    let h = with_state(with_state(twin.build.graph));
    match q {
        Quantifier::ZeroOrMore => {
            lemma_numeric_edge(names, g, h, s, e, p.start);
            let g1 = with_edge(g, s, e, p.start);
            let h1 = with_edge(h, s, e, p.start);
            lemma_numeric_edge(names, g1, h1, s, e, a);
            let g2 = with_edge(g1, s, e, a);
            let h2 = with_edge(h1, s, e, a);
            lemma_numeric_edge(names, g2, h2, p.accept, e, p.start);
            let g3 = with_edge(g2, p.accept, e, p.start);
            let h3 = with_edge(h2, p.accept, e, p.start);
            lemma_numeric_edge(names, g3, h3, p.accept, e, a);
        },
        Quantifier::ZeroOrMoreLazy => {
            lemma_numeric_edge(names, g, h, s, e, a);
            let g1 = with_edge(g, s, e, a);
            let h1 = with_edge(h, s, e, a);
            lemma_numeric_edge(names, g1, h1, s, e, p.start);
            let g2 = with_edge(g1, s, e, p.start);
            let h2 = with_edge(h1, s, e, p.start);
            lemma_numeric_edge(names, g2, h2, p.accept, e, a);
            let g3 = with_edge(g2, p.accept, e, a);
            let h3 = with_edge(h2, p.accept, e, a);
            lemma_numeric_edge(names, g3, h3, p.accept, e, p.start);
        },
        Quantifier::OneOrMore => {
            lemma_numeric_edge(names, g, h, s, e, p.start);
            let g1 = with_edge(g, s, e, p.start);
            let h1 = with_edge(h, s, e, p.start);
            lemma_numeric_edge(names, g1, h1, p.accept, e, p.start);
            let g2 = with_edge(g1, p.accept, e, p.start);
            let h2 = with_edge(h1, p.accept, e, p.start);
            lemma_numeric_edge(names, g2, h2, p.accept, e, a);
        },
        Quantifier::OneOrMoreLazy => {
            lemma_numeric_edge(names, g, h, s, e, p.start);
            let g1 = with_edge(g, s, e, p.start);
            let h1 = with_edge(h, s, e, p.start);
            lemma_numeric_edge(names, g1, h1, p.accept, e, a);
            let g2 = with_edge(g1, p.accept, e, a);
            let h2 = with_edge(h1, p.accept, e, a);
            lemma_numeric_edge(names, g2, h2, p.accept, e, p.start);
        },
        _ => {
            lemma_numeric_edge(names, g, h, s, e, p.start);
            let g1 = with_edge(g, s, e, p.start);
            let h1 = with_edge(h, s, e, p.start);
            lemma_numeric_edge(names, g1, h1, s, e, a);
            let g2 = with_edge(g1, s, e, a);
            let h2 = with_edge(h1, s, e, a);
            lemma_numeric_edge(names, g2, h2, p.accept, e, a);
        },
    }
}

proof fn lemma_numeric_items(es: Seq<ExprView>, names: Names, n: nat)
    requires
        n <= es.len(),
    ensures
        numeric_upto(es, names, n).len() == n,
        forall|i: int| 0 <= i < n ==> #[trigger] numeric_upto(es, names, n)[i] == numeric(es[i], names),
    decreases n,
{
    if n > 0 {
        lemma_numeric_items(es, names, (n - 1) as nat);
        assert(numeric_upto(es, names, n) == numeric_upto(es, names, (n - 1) as nat).push(numeric(es[n - 1], names)));
    }
}

/// Writing relative backreferences as numeric ones changes no group.
pub proof fn lemma_numeric_declares(e: ExprView, names: Names)
    ensures
        declared(numeric(e, names)) == declared(e),
    decreases e, 0nat,
{
    match e {
        ExprView::Sequence(es) => {
            lemma_numeric_items(es, names, es.len());
            lemma_numeric_upto_declares(es, names, es.len());
        },
        ExprView::Alternation(es) => {
            lemma_numeric_items(es, names, es.len());
            lemma_numeric_upto_declares(es, names, es.len());
        },
        ExprView::Quantified { expr, quantifier } => {
            lemma_numeric_declares(*expr, names);
        },
        ExprView::Group(inner) => {
            lemma_numeric_declares(*inner, names);
        },
        ExprView::NonCapturingGroup(inner) => {
            lemma_numeric_declares(*inner, names);
        },
        ExprView::NamedGroup { name, pattern } => {
            lemma_numeric_declares(*pattern, names);
        },
        ExprView::AtomicGroup(inner) => {
            lemma_numeric_declares(*inner, names);
        },
        _ => {},
    }
}

proof fn lemma_numeric_upto_declares(es: Seq<ExprView>, names: Names, k: nat)
    requires
        k <= es.len(),
    ensures
        declared_upto(numeric_upto(es, names, es.len()), k) == declared_upto(es, k),
    decreases es, k,
{
    let gs = numeric_upto(es, names, es.len());
    lemma_numeric_items(es, names, es.len());
    if k > 0 {
        lemma_numeric_upto_declares(es, names, (k - 1) as nat);
        lemma_numeric_declares(es[k - 1], names);
        assert(gs[k - 1] == numeric(es[k - 1], names));
    } else {
        assert(declared_upto(gs, 0) =~= declared_upto(es, 0));
    }
}

/// The piece of an expression with its relative backreferences written as
/// numeric ones is the piece of the expression with the labels of those
/// edges replaced.
pub proof fn lemma_numeric_piece(e: ExprView, names: Names, b: Build, c: Build)
    requires
        renumbered(names, b.graph, c.graph),
        b.next_group == c.next_group,
    ensures
        renumbered_piece(names, thompson(e, names, b), thompson(numeric(e, names), names, c)),
    decreases e, 0nat, 0nat,
{
    match e {
        ExprView::Empty => lemma_numeric_pair(names, b, c, Label::Epsilon),
        ExprView::Literal(ch) => lemma_numeric_pair(names, b, c, Label::Char(ch)),
        ExprView::Any => lemma_numeric_pair(names, b, c, Label::Any),
        ExprView::Sequence(es) => {
            lemma_numeric_items(es, names, es.len());
            if es.len() == 0 {
                lemma_numeric_pair(names, b, c, Label::Epsilon);
            } else {
                lemma_numeric_chain(es, names, b, c, es.len());
            }
        },
        ExprView::Alternation(es) => {
            lemma_numeric_items(es, names, es.len());
            if es.len() == 0 {
                lemma_numeric_pair(names, b, c, Label::Epsilon);
            } else if es.len() == 1 {
                lemma_numeric_piece(es[0], names, b, c);
            } else {
                let s = b.graph.len() as int;
                lemma_numeric_state(names, b.graph, c.graph);
                lemma_numeric_state(names, with_state(b.graph), with_state(c.graph));
                let around_b = Build {
                    graph: with_state(with_state(b.graph)),
                    next_group: b.next_group,
                };
                let around_c = Build {
                    graph: with_state(with_state(c.graph)),
                    next_group: c.next_group,
                };
                lemma_numeric_branches(es, names, around_b, around_c, s, s + 1, es.len());
            }
        },
        ExprView::CharacterClass(cc) => lemma_numeric_pair(names, 
            b,
            c,
            Label::Class { negated: cc.negated, items: cc.items },
        ),
        ExprView::Quantified { expr, quantifier } => match quantifier {
            Quantifier::Exactly(n) => lemma_numeric_exact(*expr, names, b, c, n as nat),
            Quantifier::AtLeast(n) => lemma_numeric_at_least(*expr, names, b, c, n as nat, false),
            Quantifier::AtLeastLazy(n) => lemma_numeric_at_least(*expr, names, b, c, n as nat, true),
            Quantifier::Between(n, m) => lemma_numeric_between(
                *expr,
                names,
                b,
                c,
                n as nat,
                m as nat,
                false,
            ),
            Quantifier::BetweenLazy(n, m) => lemma_numeric_between(
                *expr,
                names,
                b,
                c,
                n as nat,
                m as nat,
                true,
            ),
            q => {
                lemma_numeric_piece(*expr, names, b, c);
                lemma_numeric_looped(
                    names,
                    thompson(*expr, names, b),
                    thompson(numeric(*expr, names), names, c),
                    q,
                );
            },
        },
        ExprView::Group(inner) => lemma_numeric_grouped(*inner, names, b, c),
        ExprView::NamedGroup { name, pattern } => lemma_numeric_grouped(*pattern, names, b, c),
        ExprView::NonCapturingGroup(inner) => lemma_numeric_piece(*inner, names, b, c),
        ExprView::AtomicGroup(inner) => lemma_numeric_piece(*inner, names, b, c),
        ExprView::StartAnchor => lemma_numeric_pair(names, b, c, Label::StartAnchor),
        ExprView::EndAnchor => lemma_numeric_pair(names, b, c, Label::EndAnchor),
        ExprView::Backreference(n) => lemma_numeric_pair(names, b, c, Label::Backref(n)),
        ExprView::RelativeBackreference(n) => lemma_numeric_pair(names, b, c, Label::BackrefRelative(n)),
        ExprView::NamedBackreference(name) => lemma_numeric_pair(names, 
            b,
            c,
            Label::Backref(named_target(names, name)),
        ),
        ExprView::Shorthand(ch) => lemma_numeric_pair(names, b, c, shorthand_label(ch)),
        ExprView::WordBoundary => lemma_numeric_pair(names, b, c, Label::WordBoundary),
        ExprView::NonWordBoundary => lemma_numeric_pair(names, b, c, Label::NonWordBoundary),
        ExprView::Lookahead(_) => lemma_numeric_pair(names, b, c, Label::Epsilon),
        ExprView::NegativeLookahead(_) => lemma_numeric_pair(names, b, c, Label::Epsilon),
        ExprView::Lookbehind(_) => lemma_numeric_pair(names, b, c, Label::Epsilon),
        ExprView::NegativeLookbehind(_) => lemma_numeric_pair(names, b, c, Label::Epsilon),
        ExprView::ConditionalGroup(_) => lemma_numeric_pair(names, b, c, Label::Epsilon),
    }
}

proof fn lemma_numeric_grouped(inner: ExprView, names: Names, b: Build, c: Build)
    requires
        renumbered(names, b.graph, c.graph),
        b.next_group == c.next_group,
    ensures
        renumbered_piece(names, grouped(inner, names, b), grouped(numeric(inner, names), names, c)),
    decreases inner, 1nat, 0nat,
{
    let id = b.next_group as u32;
    let start = b.graph.len() as int;
    lemma_numeric_state(names, b.graph, c.graph);
    let first_b = Build { graph: with_state(b.graph), next_group: b.next_group + 1 };
    let first_c = Build { graph: with_state(c.graph), next_group: c.next_group + 1 };
    lemma_numeric_piece(inner, names, first_b, first_c);
    let p = thompson(inner, names, first_b);
    let q = thompson(numeric(inner, names), names, first_c);
    let accept = p.build.graph.len() as int;
    lemma_numeric_state(names, p.build.graph, q.build.graph);
    let g = with_state(p.build.graph);
    let h = with_state(q.build.graph);
    lemma_numeric_edge(names, g, h, start, Label::GroupStart(id), p.start);
    let g1 = with_edge(g, start, Label::GroupStart(id), p.start);
    let h1 = with_edge(h, start, Label::GroupStart(id), p.start);
    lemma_numeric_edge(names, g1, h1, p.accept, Label::GroupEnd(id), accept);
}

proof fn lemma_numeric_chain(es: Seq<ExprView>, names: Names, b: Build, c: Build, k: nat)
    requires
        renumbered(names, b.graph, c.graph),
        b.next_group == c.next_group,
        1 <= k <= es.len(),
    ensures
        renumbered_piece(names, chain(es, names, b, k), chain(numeric_upto(es, names, es.len()), names, c, k)),
    decreases es, 0nat, k,
{
    let gs = numeric_upto(es, names, es.len());
    lemma_numeric_items(es, names, es.len());
    if k == 1 {
        lemma_numeric_piece(es[0], names, b, c);
    } else {
        lemma_numeric_chain(es, names, b, c, (k - 1) as nat);
        let p = chain(es, names, b, (k - 1) as nat);
        let q = chain(gs, names, c, (k - 1) as nat);
        lemma_numeric_piece(es[k - 1], names, p.build, q.build);
        assert(gs[k - 1] == numeric(es[k - 1], names));
        lemma_numeric_joined(names, 
            p,
            thompson(es[k - 1], names, p.build),
            q,
            thompson(gs[k - 1], names, q.build),
        );
    }
}

proof fn lemma_numeric_branches(
    es: Seq<ExprView>,
    names: Names,
    b: Build,
    c: Build,
    start: int,
    accept: int,
    k: nat,
)
    requires
        renumbered(names, b.graph, c.graph),
        b.next_group == c.next_group,
        k <= es.len(),
    ensures
        renumbered(names, 
            branches(es, names, b, start, accept, k).graph,
            branches(numeric_upto(es, names, es.len()), names, c, start, accept, k).graph,
        ),
        branches(es, names, b, start, accept, k).next_group == branches(
            numeric_upto(es, names, es.len()),
            names,
            c,
            start,
            accept,
            k,
        ).next_group,
    decreases es, 0nat, k,
{
    let gs = numeric_upto(es, names, es.len());
    lemma_numeric_items(es, names, es.len());
    if k > 0 {
        lemma_numeric_branches(es, names, b, c, start, accept, (k - 1) as nat);
        let prev_b = branches(es, names, b, start, accept, (k - 1) as nat);
        let prev_c = branches(gs, names, c, start, accept, (k - 1) as nat);
        lemma_numeric_piece(es[k - 1], names, prev_b, prev_c);
        assert(gs[k - 1] == numeric(es[k - 1], names));
        let p = thompson(es[k - 1], names, prev_b);
        let q = thompson(gs[k - 1], names, prev_c);
        lemma_numeric_edge(names, p.build.graph, q.build.graph, start, Label::Epsilon, p.start);
        let g1 = with_edge(p.build.graph, start, Label::Epsilon, p.start);
        let h1 = with_edge(q.build.graph, start, Label::Epsilon, p.start);
        lemma_numeric_edge(names, g1, h1, p.accept, Label::Epsilon, accept);
    }
}

proof fn lemma_numeric_repeat(e: ExprView, names: Names, b: Build, c: Build, k: nat)
    requires
        renumbered(names, b.graph, c.graph),
        b.next_group == c.next_group,
    ensures
        renumbered_piece(names, repeat(e, names, b, k), repeat(numeric(e, names), names, c, k)),
    decreases e, 1nat, k,
{
    if k <= 1 {
        lemma_numeric_piece(e, names, b, c);
    } else {
        lemma_numeric_repeat(e, names, b, c, (k - 1) as nat);
        let p = repeat(e, names, b, (k - 1) as nat);
        let q = repeat(numeric(e, names), names, c, (k - 1) as nat);
        let again_b = Build { graph: p.build.graph, next_group: b.next_group };
        let again_c = Build { graph: q.build.graph, next_group: c.next_group };
        lemma_numeric_piece(e, names, again_b, again_c);
        lemma_numeric_joined(names, 
            p,
            thompson(e, names, again_b),
            q,
            thompson(numeric(e, names), names, again_c),
        );
    }
}

proof fn lemma_numeric_exact(e: ExprView, names: Names, b: Build, c: Build, n: nat)
    requires
        renumbered(names, b.graph, c.graph),
        b.next_group == c.next_group,
    ensures
        renumbered_piece(names, exact(e, names, b, n), exact(numeric(e, names), names, c, n)),
    decreases e, 2nat, 0nat,
{
    if n == 0 {
        lemma_numeric_declares(e, names);
        lemma_numeric_pair(names, 
            Build { graph: b.graph, next_group: b.next_group + declared(e).len() },
            Build { graph: c.graph, next_group: c.next_group + declared(numeric(e, names)).len() },
            Label::Epsilon,
        );
    } else {
        lemma_numeric_repeat(e, names, b, c, n);
    }
}

proof fn lemma_numeric_at_least(e: ExprView, names: Names, b: Build, c: Build, n: nat, lazy: bool)
    requires
        renumbered(names, b.graph, c.graph),
        b.next_group == c.next_group,
    ensures
        renumbered_piece(names, at_least(e, names, b, n, lazy), at_least(numeric(e, names), names, c, n, lazy)),
    decreases e, 3nat, 0nat,
{
    lemma_numeric_exact(e, names, b, c, n);
    let head_b = exact(e, names, b, n);
    let head_c = exact(numeric(e, names), names, c, n);
    let again_b = Build { graph: head_b.build.graph, next_group: b.next_group };
    let again_c = Build { graph: head_c.build.graph, next_group: c.next_group };
    lemma_numeric_piece(e, names, again_b, again_c);
    let q = if lazy {
        Quantifier::ZeroOrMoreLazy
    } else {
        Quantifier::ZeroOrMore
    };
    lemma_numeric_looped(names, thompson(e, names, again_b), thompson(numeric(e, names), names, again_c), q);
    lemma_numeric_joined(names, 
        head_b,
        looped(thompson(e, names, again_b), q),
        head_c,
        looped(thompson(numeric(e, names), names, again_c), q),
    );
}

proof fn lemma_numeric_optional(
    e: ExprView,
    names: Names,
    g: Graph,
    h: Graph,
    first_group: int,
    lazy: bool,
    exit: int,
    prev: int,
    k: nat,
)
    requires
        renumbered(names, g, h),
    ensures
        renumbered(names, 
            optional_copies(e, names, g, first_group, lazy, exit, prev, k).0,
            optional_copies(numeric(e, names), names, h, first_group, lazy, exit, prev, k).0,
        ),
        optional_copies(e, names, g, first_group, lazy, exit, prev, k).1 == optional_copies(
            numeric(e, names),
            names,
            h,
            first_group,
            lazy,
            exit,
            prev,
            k,
        ).1,
    decreases e, 1nat, k,
{
    if k > 0 {
        lemma_numeric_optional(e, names, g, h, first_group, lazy, exit, prev, (k - 1) as nat);
        let (g1, last) = optional_copies(
            e,
            names,
            g,
            first_group,
            lazy,
            exit,
            prev,
            (k - 1) as nat,
        );
        let (h1, last2) = optional_copies(
            numeric(e, names),
            names,
            h,
            first_group,
            lazy,
            exit,
            prev,
            (k - 1) as nat,
        );
        let again_b = Build { graph: g1, next_group: first_group };
        let again_c = Build { graph: h1, next_group: first_group };
        lemma_numeric_piece(e, names, again_b, again_c);
        let p = thompson(e, names, again_b);
        let q = thompson(numeric(e, names), names, again_c);
        if lazy {
            lemma_numeric_edge(names, p.build.graph, q.build.graph, last, Label::Epsilon, exit);
            lemma_numeric_edge(
                names,
                with_edge(p.build.graph, last, Label::Epsilon, exit),
                with_edge(q.build.graph, last, Label::Epsilon, exit),
                last,
                Label::Epsilon,
                p.start,
            );
        } else {
            lemma_numeric_edge(names, p.build.graph, q.build.graph, last, Label::Epsilon, p.start);
            lemma_numeric_edge(names, 
                with_edge(p.build.graph, last, Label::Epsilon, p.start),
                with_edge(q.build.graph, last, Label::Epsilon, p.start),
                last,
                Label::Epsilon,
                exit,
            );
        }
    }
}

proof fn lemma_numeric_between(
    e: ExprView,
    names: Names,
    b: Build,
    c: Build,
    n: nat,
    m: nat,
    lazy: bool,
)
    requires
        renumbered(names, b.graph, c.graph),
        b.next_group == c.next_group,
    ensures
        renumbered_piece(names, between(e, names, b, n, m, lazy), between(numeric(e, names), names, c, n, m, lazy)),
    decreases e, 3nat, 0nat,
{
    lemma_numeric_exact(e, names, b, c, n);
    if m > n {
        let head_b = exact(e, names, b, n);
        let head_c = exact(numeric(e, names), names, c, n);
        let s = head_b.build.graph.len() as int;
        let a = s + 1;
        lemma_numeric_state(names, head_b.build.graph, head_c.build.graph);
        lemma_numeric_state(names, with_state(head_b.build.graph), with_state(head_c.build.graph));
        let g2 = with_state(with_state(head_b.build.graph));
        let h2 = with_state(with_state(head_c.build.graph));
        lemma_numeric_edge(names, g2, h2, s, Label::Epsilon, head_b.start);
        let g = with_edge(g2, s, Label::Epsilon, head_b.start);
        let h = with_edge(h2, s, Label::Epsilon, head_b.start);
        lemma_numeric_optional(e, names, g, h, b.next_group, lazy, a, head_b.accept, (m - n) as nat);
        let (copies_b, last) = optional_copies(
            e,
            names,
            g,
            b.next_group,
            lazy,
            a,
            head_b.accept,
            (m - n) as nat,
        );
        let (copies_c, last2) = optional_copies(
            numeric(e, names),
            names,
            h,
            c.next_group,
            lazy,
            a,
            head_c.accept,
            (m - n) as nat,
        );
        lemma_numeric_edge(names, copies_b, copies_c, last, Label::Epsilon, a);
    }
}

/// A pattern whose relative backreferences are written as the
/// backreferences to the groups that they stand for matches as the pattern
/// itself: at every start both give the same match, captures included.
pub proof fn lemma_relative_written_numerically(
    e: ExprView,
    flags: ModeFlags,
    input: Seq<char>,
    start: int,
)
    ensures
        match_at(machine_of(numeric(e, declared(e)), flags), input, start) == match_at(
            machine_of(e, flags),
            input,
            start,
        ),
{
    let names = declared(e);
    let m = machine_of(e, flags);
    let n = machine_of(numeric(e, names), flags);
    lemma_numeric_declares(e, names);
    let b0 = empty_build();
    assert(renumbered(names, b0.graph, b0.graph));
    lemma_numeric_piece(e, names, b0, b0);
    assert forall|s: int, j: int| 0 <= s < m.graph.len() && 0 <= j < m.graph[s].len() implies (
    #[trigger] m.graph[s][j]).1 == n.graph[s][j].1 && crossed_alike(
        m,
        m.graph[s][j].0,
        n,
        n.graph[s][j].0,
    ) by {
        let a = m.graph[s][j].0;
        let b = n.graph[s][j].0;
        assert(b == numeric_label(names, a));
        assert forall|input: Seq<char>, pos: int, caps: Caps| #[trigger]
            crosses(m, input, pos, a, caps) == crosses(n, input, pos, b, caps) by {}
    }
    assert(alike(m, n));
    lemma_match_alike(m, n, input, start);
}

/// Where no group has a name, the relative backreference `-k` is written
/// as the backreference to group `n + 1 - k`, `n` being the number of
/// groups.
pub proof fn lemma_counted_from_the_last(names: Names, k: int)
    requires
        forall|i: int| 0 <= i < names.len() ==> #[trigger] names[i] is None,
        names.len() <= 0x7fff_ffff,
        1 <= k <= names.len(),
    ensures
        numeric(ExprView::RelativeBackreference((-k) as i32), names) == ExprView::Backreference(
            (names.len() + 1 - k) as u32,
        ),
{
    lemma_relative_is_numeric(names, k);
}

proof fn lemma_declared_before(es: Seq<ExprView>, last: ExprView, n: nat)
    requires
        n <= es.len(),
    ensures
        declared_upto(es.push(last), n) == declared_upto(es, n),
    decreases n,
{
    if n > 0 {
        lemma_declared_before(es, last, (n - 1) as nat);
        assert(es.push(last)[n - 1] == es[n - 1]);
    }
}

/// Behind expressions that hold `n` groups, none with a name, the relative
/// backreference `-k` and the backreference to group `n + 1 - k` match
/// alike: the pattern that ends in the one gives at every start the match
/// of the pattern that ends in the other.
pub proof fn lemma_relative_behind_groups(
    before: Seq<ExprView>,
    k: int,
    flags: ModeFlags,
    input: Seq<char>,
    start: int,
)
    requires
        forall|i: int|
            0 <= i < declared(ExprView::Sequence(before)).len() ==> #[trigger] declared(
                ExprView::Sequence(before),
            )[i] is None,
        declared(ExprView::Sequence(before)).len() <= 0x7fff_ffff,
        1 <= k <= declared(ExprView::Sequence(before)).len(),
    ensures
        match_at(
            machine_of(
                ExprView::Sequence(before.push(ExprView::RelativeBackreference((-k) as i32))),
                flags,
            ),
            input,
            start,
        ) == match_at(
            machine_of(
                ExprView::Sequence(
                    before.push(
                        ExprView::Backreference(
                            (declared(ExprView::Sequence(before)).len() + 1 - k) as u32,
                        ),
                    ),
                ),
                flags,
            ),
            input,
            start,
        ),
{
    let names = declared(ExprView::Sequence(before));
    let relative = ExprView::RelativeBackreference((-k) as i32);
    let absolute = ExprView::Backreference((names.len() + 1 - k) as u32);
    let one = before.push(relative);
    let other = before.push(absolute);
    let n = before.len();
    lemma_declared_before(before, relative, n);
    lemma_declared_before(before, absolute, n);
    assert(declared_upto(one, one.len()) == declared_upto(one, n) + declared(one[n as int]));
    assert(declared_upto(other, other.len()) == declared_upto(other, n) + declared(
        other[n as int],
    ));
    assert(declared(one[n as int]) =~= Names::empty());
    assert(declared(other[n as int]) =~= Names::empty());
    assert(declared(ExprView::Sequence(one)) =~= names);
    assert(declared(ExprView::Sequence(other)) =~= names);
    lemma_counted_from_the_last(names, k);
    lemma_numeric_items(one, names, one.len());
    lemma_numeric_items(other, names, other.len());
    assert forall|i: int| 0 <= i < n + 1 implies numeric(one[i], names) == numeric(
        other[i],
        names,
    ) by {
        if i < n {
            assert(one[i] == before[i]);
            assert(other[i] == before[i]);
        }
    }
    assert(numeric_upto(one, names, one.len()) =~= numeric_upto(other, names, other.len()));
    lemma_relative_written_numerically(ExprView::Sequence(one), flags, input, start);
    lemma_relative_written_numerically(ExprView::Sequence(other), flags, input, start);
}

} // verus!
