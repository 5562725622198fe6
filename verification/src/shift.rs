//! A piece looks the same wherever in a table it is built: its states and
//! the targets of its edges move with the place at which the table ends,
//! and nothing else changes.

use crate::ast::{ExprView, Quantifier};
use crate::groups::{Names, declared};
use crate::pieces::lemma_thompson;
use crate::thompson::{
    Build, Edge, Graph, Label, Piece, at_least, between, branches, chain, exact, grouped, joined,
    looped, named_target, optional_copies, pair, repeat, shorthand_label, thompson, with_edge,
    with_state,
};
use vstd::prelude::*;

verus! {

/// The edges `edges` with every target moved by `d`.
pub open spec fn moved(edges: Seq<Edge>, d: int) -> Seq<Edge> {
    Seq::new(edges.len(), |j: int| (edges[j].0, edges[j].1 + d))
}

/// The states of `h` from `base + d` on are the states of `g` from `base`
/// on, with the targets of their edges moved by `d`.
pub open spec fn shifted(g: Graph, base: int, h: Graph, d: int) -> bool {
    &&& h.len() == g.len() + d
    &&& forall|s: int| base <= s < g.len() ==> h[s + d] == moved(#[trigger] g[s], d)
}

/// The piece `q` is the piece `p` moved by `d`.
pub open spec fn same_shape(p: Piece, q: Piece, base: int, d: int) -> bool {
    &&& shifted(p.build.graph, base, q.build.graph, d)
    &&& q.start == p.start + d
    &&& q.accept == p.accept + d
    &&& q.build.next_group == p.build.next_group
}

proof fn lemma_shift_state(g: Graph, base: int, h: Graph, d: int)
    requires
        shifted(g, base, h, d),
        0 <= base,
        0 <= base + d,
    ensures
        shifted(with_state(g), base, with_state(h), d),
{
    let g2 = with_state(g);
    let h2 = with_state(h);
    assert forall|s: int| base <= s < g2.len() implies h2[s + d] == moved(#[trigger] g2[s], d) by {
        if s < g.len() {
            assert(g2[s] == g[s]);
            assert(h2[s + d] == h[s + d]);
        } else {
            assert(h2[s + d] =~= moved(g2[s], d));
        }
    }
}

proof fn lemma_shift_edge(g: Graph, base: int, h: Graph, d: int, from: int, label: Label, to: int)
    requires
        shifted(g, base, h, d),
        0 <= base <= from < g.len(),
        0 <= base + d,
    ensures
        shifted(with_edge(g, from, label, to), base, with_edge(h, from + d, label, to + d), d),
{
    let g2 = with_edge(g, from, label, to);
    let h2 = with_edge(h, from + d, label, to + d);
    assert forall|s: int| base <= s < g2.len() implies h2[s + d] == moved(#[trigger] g2[s], d) by {
        assert(h[s + d] == moved(g[s], d));
        if s == from {
            assert(h2[s + d] =~= moved(g2[s], d));
        } else {
            assert(g2[s] == g[s]);
            assert(h2[s + d] == h[s + d]);
        }
    }
}

proof fn lemma_shift_pair(b: Build, c: Build, base: int, d: int, label: Label)
    requires
        shifted(b.graph, base, c.graph, d),
        0 <= base <= b.graph.len(),
        0 <= base + d,
        b.next_group == c.next_group,
    ensures
        same_shape(pair(b, label), pair(c, label), base, d),
{
    lemma_shift_state(b.graph, base, c.graph, d);
    lemma_shift_state(with_state(b.graph), base, with_state(c.graph), d);
    lemma_shift_edge(
        with_state(with_state(b.graph)),
        base,
        with_state(with_state(c.graph)),
        d,
        b.graph.len() as int,
        label,
        b.graph.len() as int + 1,
    );
}

proof fn lemma_shift_joined(p: Piece, c: Piece, twin: Piece, after: Piece, base: int, d: int)
    requires
        same_shape(c, after, base, d),
        twin.start == p.start + d,
        twin.accept == p.accept + d,
        0 <= base <= p.accept < c.build.graph.len(),
        0 <= base + d,
    ensures
        same_shape(joined(p, c), joined(twin, after), base, d),
{
    lemma_shift_edge(c.build.graph, base, after.build.graph, d, p.accept, Label::Epsilon, c.start);
}

proof fn lemma_shift_looped(p: Piece, twin: Piece, base: int, d: int, q: Quantifier)
    requires
        same_shape(p, twin, base, d),
        0 <= base <= p.accept < p.build.graph.len(),
        0 <= base + d,
    ensures
        same_shape(looped(p, q), looped(twin, q), base, d),
{
    let s = p.build.graph.len() as int;
    let a = s + 1;
    let e = Label::Epsilon;
    lemma_shift_state(p.build.graph, base, twin.build.graph, d);
    lemma_shift_state(with_state(p.build.graph), base, with_state(twin.build.graph), d);
    let g = with_state(with_state(p.build.graph));
    let h = with_state(with_state(twin.build.graph));
    match q {
        Quantifier::ZeroOrMore => {
            lemma_shift_edge(g, base, h, d, s, e, p.start);
            let g1 = with_edge(g, s, e, p.start);
            let h1 = with_edge(h, s + d, e, p.start + d);
            lemma_shift_edge(g1, base, h1, d, s, e, a);
            let g2 = with_edge(g1, s, e, a);
            let h2 = with_edge(h1, s + d, e, a + d);
            lemma_shift_edge(g2, base, h2, d, p.accept, e, p.start);
            let g3 = with_edge(g2, p.accept, e, p.start);
            let h3 = with_edge(h2, p.accept + d, e, p.start + d);
            lemma_shift_edge(g3, base, h3, d, p.accept, e, a);
        },
        Quantifier::ZeroOrMoreLazy => {
            lemma_shift_edge(g, base, h, d, s, e, a);
            let g1 = with_edge(g, s, e, a);
            let h1 = with_edge(h, s + d, e, a + d);
            lemma_shift_edge(g1, base, h1, d, s, e, p.start);
            let g2 = with_edge(g1, s, e, p.start);
            let h2 = with_edge(h1, s + d, e, p.start + d);
            lemma_shift_edge(g2, base, h2, d, p.accept, e, a);
            let g3 = with_edge(g2, p.accept, e, a);
            let h3 = with_edge(h2, p.accept + d, e, a + d);
            lemma_shift_edge(g3, base, h3, d, p.accept, e, p.start);
        },
        Quantifier::OneOrMore => {
            lemma_shift_edge(g, base, h, d, s, e, p.start);
            let g1 = with_edge(g, s, e, p.start);
            let h1 = with_edge(h, s + d, e, p.start + d);
            lemma_shift_edge(g1, base, h1, d, p.accept, e, p.start);
            let g2 = with_edge(g1, p.accept, e, p.start);
            let h2 = with_edge(h1, p.accept + d, e, p.start + d);
            lemma_shift_edge(g2, base, h2, d, p.accept, e, a);
        },
        Quantifier::OneOrMoreLazy => {
            lemma_shift_edge(g, base, h, d, s, e, p.start);
            let g1 = with_edge(g, s, e, p.start);
            let h1 = with_edge(h, s + d, e, p.start + d);
            lemma_shift_edge(g1, base, h1, d, p.accept, e, a);
            let g2 = with_edge(g1, p.accept, e, a);
            let h2 = with_edge(h1, p.accept + d, e, a + d);
            lemma_shift_edge(g2, base, h2, d, p.accept, e, p.start);
        },
        _ => {
            lemma_shift_edge(g, base, h, d, s, e, p.start);
            let g1 = with_edge(g, s, e, p.start);
            let h1 = with_edge(h, s + d, e, p.start + d);
            lemma_shift_edge(g1, base, h1, d, s, e, a);
            let g2 = with_edge(g1, s, e, a);
            let h2 = with_edge(h1, s + d, e, a + d);
            lemma_shift_edge(g2, base, h2, d, p.accept, e, a);
        },
    }
}

/// The piece of an expression built on one table is the piece built on
/// another, moved by the difference of their lengths.
pub proof fn lemma_shift(e: ExprView, names: Names, b: Build, c: Build, base: int, d: int)
    requires
        shifted(b.graph, base, c.graph, d),
        0 <= base <= b.graph.len(),
        0 <= base + d,
        b.next_group == c.next_group,
    ensures
        same_shape(thompson(e, names, b), thompson(e, names, c), base, d),
    decreases e, 0nat, 0nat,
{
    match e {
        ExprView::Empty => lemma_shift_pair(b, c, base, d, Label::Epsilon),
        ExprView::Literal(ch) => lemma_shift_pair(b, c, base, d, Label::Char(ch)),
        ExprView::Any => lemma_shift_pair(b, c, base, d, Label::Any),
        ExprView::Sequence(es) => {
            if es.len() == 0 {
                lemma_shift_pair(b, c, base, d, Label::Epsilon);
            } else {
                lemma_shift_chain(es, names, b, c, base, d, es.len());
            }
        },
        ExprView::Alternation(es) => {
            if es.len() == 0 {
                lemma_shift_pair(b, c, base, d, Label::Epsilon);
            } else if es.len() == 1 {
                lemma_shift(es[0], names, b, c, base, d);
            } else {
                let s = b.graph.len() as int;
                lemma_shift_state(b.graph, base, c.graph, d);
                lemma_shift_state(with_state(b.graph), base, with_state(c.graph), d);
                let around_b = Build {
                    graph: with_state(with_state(b.graph)),
                    next_group: b.next_group,
                };
                let around_c = Build {
                    graph: with_state(with_state(c.graph)),
                    next_group: c.next_group,
                };
                lemma_shift_branches(es, names, around_b, around_c, base, d, s, s + 1, es.len());
            }
        },
        ExprView::CharacterClass(cc) => lemma_shift_pair(
            b,
            c,
            base,
            d,
            Label::Class { negated: cc.negated, items: cc.items },
        ),
        ExprView::Quantified { expr, quantifier } => match quantifier {
            Quantifier::Exactly(n) => lemma_shift_exact(*expr, names, b, c, base, d, n as nat),
            Quantifier::AtLeast(n) => lemma_shift_at_least(
                *expr,
                names,
                b,
                c,
                base,
                d,
                n as nat,
                false,
            ),
            Quantifier::AtLeastLazy(n) => lemma_shift_at_least(
                *expr,
                names,
                b,
                c,
                base,
                d,
                n as nat,
                true,
            ),
            Quantifier::Between(n, m) => lemma_shift_between(
                *expr,
                names,
                b,
                c,
                base,
                d,
                n as nat,
                m as nat,
                false,
            ),
            Quantifier::BetweenLazy(n, m) => lemma_shift_between(
                *expr,
                names,
                b,
                c,
                base,
                d,
                n as nat,
                m as nat,
                true,
            ),
            q => {
                lemma_shift(*expr, names, b, c, base, d);
                lemma_thompson(*expr, names, b);
                lemma_shift_looped(
                    thompson(*expr, names, b),
                    thompson(*expr, names, c),
                    base,
                    d,
                    q,
                );
            },
        },
        ExprView::Group(inner) => lemma_shift_grouped(*inner, names, b, c, base, d),
        ExprView::NamedGroup { name, pattern } => lemma_shift_grouped(*pattern, names, b, c, base, d),
        ExprView::NonCapturingGroup(inner) => lemma_shift(*inner, names, b, c, base, d),
        ExprView::AtomicGroup(inner) => lemma_shift(*inner, names, b, c, base, d),
        ExprView::StartAnchor => lemma_shift_pair(b, c, base, d, Label::StartAnchor),
        ExprView::EndAnchor => lemma_shift_pair(b, c, base, d, Label::EndAnchor),
        ExprView::Backreference(n) => lemma_shift_pair(b, c, base, d, Label::Backref(n)),
        ExprView::RelativeBackreference(n) => lemma_shift_pair(
            b,
            c,
            base,
            d,
            Label::BackrefRelative(n),
        ),
        ExprView::NamedBackreference(name) => lemma_shift_pair(
            b,
            c,
            base,
            d,
            Label::Backref(named_target(names, name)),
        ),
        ExprView::Shorthand(ch) => lemma_shift_pair(b, c, base, d, shorthand_label(ch)),
        ExprView::WordBoundary => lemma_shift_pair(b, c, base, d, Label::WordBoundary),
        ExprView::NonWordBoundary => lemma_shift_pair(b, c, base, d, Label::NonWordBoundary),
        ExprView::Lookahead(_) => lemma_shift_pair(b, c, base, d, Label::Epsilon),
        ExprView::NegativeLookahead(_) => lemma_shift_pair(b, c, base, d, Label::Epsilon),
        ExprView::Lookbehind(_) => lemma_shift_pair(b, c, base, d, Label::Epsilon),
        ExprView::NegativeLookbehind(_) => lemma_shift_pair(b, c, base, d, Label::Epsilon),
        ExprView::ConditionalGroup(_) => lemma_shift_pair(b, c, base, d, Label::Epsilon),
    }
}

proof fn lemma_shift_grouped(inner: ExprView, names: Names, b: Build, c: Build, base: int, d: int)
    requires
        shifted(b.graph, base, c.graph, d),
        0 <= base <= b.graph.len(),
        0 <= base + d,
        b.next_group == c.next_group,
    ensures
        same_shape(grouped(inner, names, b), grouped(inner, names, c), base, d),
    decreases inner, 1nat, 0nat,
{
    let id = b.next_group as u32;
    let start = b.graph.len() as int;
    lemma_shift_state(b.graph, base, c.graph, d);
    let first_b = Build { graph: with_state(b.graph), next_group: b.next_group + 1 };
    let first_c = Build { graph: with_state(c.graph), next_group: c.next_group + 1 };
    lemma_shift(inner, names, first_b, first_c, base, d);
    lemma_thompson(inner, names, first_b);
    let p = thompson(inner, names, first_b);
    let q = thompson(inner, names, first_c);
    let accept = p.build.graph.len() as int;
    lemma_shift_state(p.build.graph, base, q.build.graph, d);
    let g = with_state(p.build.graph);
    let h = with_state(q.build.graph);
    lemma_shift_edge(g, base, h, d, start, Label::GroupStart(id), p.start);
    let g1 = with_edge(g, start, Label::GroupStart(id), p.start);
    let h1 = with_edge(h, start + d, Label::GroupStart(id), p.start + d);
    lemma_shift_edge(g1, base, h1, d, p.accept, Label::GroupEnd(id), accept);
}

proof fn lemma_shift_chain(
    es: Seq<ExprView>,
    names: Names,
    b: Build,
    c: Build,
    base: int,
    d: int,
    k: nat,
)
    requires
        shifted(b.graph, base, c.graph, d),
        0 <= base <= b.graph.len(),
        0 <= base + d,
        b.next_group == c.next_group,
        1 <= k <= es.len(),
    ensures
        same_shape(chain(es, names, b, k), chain(es, names, c, k), base, d),
        b.graph.len() <= chain(es, names, b, k).accept < chain(es, names, b, k).build.graph.len(),
    decreases es, 0nat, k,
{
    if k == 1 {
        lemma_shift(es[0], names, b, c, base, d);
        lemma_thompson(es[0], names, b);
    } else {
        lemma_shift_chain(es, names, b, c, base, d, (k - 1) as nat);
        let p = chain(es, names, b, (k - 1) as nat);
        let q = chain(es, names, c, (k - 1) as nat);
        lemma_shift(es[k - 1], names, p.build, q.build, base, d);
        lemma_thompson(es[k - 1], names, p.build);
        lemma_shift_joined(
            p,
            thompson(es[k - 1], names, p.build),
            q,
            thompson(es[k - 1], names, q.build),
            base,
            d,
        );
    }
}

proof fn lemma_shift_branches(
    es: Seq<ExprView>,
    names: Names,
    b: Build,
    c: Build,
    base: int,
    d: int,
    start: int,
    accept: int,
    k: nat,
)
    requires
        shifted(b.graph, base, c.graph, d),
        0 <= base <= start < b.graph.len(),
        base <= accept < b.graph.len(),
        0 <= base + d,
        b.next_group == c.next_group,
        k <= es.len(),
    ensures
        shifted(
            branches(es, names, b, start, accept, k).graph,
            base,
            branches(es, names, c, start + d, accept + d, k).graph,
            d,
        ),
        branches(es, names, b, start, accept, k).next_group == branches(
            es,
            names,
            c,
            start + d,
            accept + d,
            k,
        ).next_group,
        b.graph.len() <= branches(es, names, b, start, accept, k).graph.len(),
    decreases es, 0nat, k,
{
    if k > 0 {
        lemma_shift_branches(es, names, b, c, base, d, start, accept, (k - 1) as nat);
        let prev_b = branches(es, names, b, start, accept, (k - 1) as nat);
        let prev_c = branches(es, names, c, start + d, accept + d, (k - 1) as nat);
        lemma_shift(es[k - 1], names, prev_b, prev_c, base, d);
        lemma_thompson(es[k - 1], names, prev_b);
        let p = thompson(es[k - 1], names, prev_b);
        let q = thompson(es[k - 1], names, prev_c);
        lemma_shift_edge(p.build.graph, base, q.build.graph, d, start, Label::Epsilon, p.start);
        let g1 = with_edge(p.build.graph, start, Label::Epsilon, p.start);
        let h1 = with_edge(q.build.graph, start + d, Label::Epsilon, p.start + d);
        lemma_shift_edge(g1, base, h1, d, p.accept, Label::Epsilon, accept);
    }
}

proof fn lemma_shift_repeat(e: ExprView, names: Names, b: Build, c: Build, base: int, d: int, k: nat)
    requires
        shifted(b.graph, base, c.graph, d),
        0 <= base <= b.graph.len(),
        0 <= base + d,
        b.next_group == c.next_group,
    ensures
        same_shape(repeat(e, names, b, k), repeat(e, names, c, k), base, d),
        b.graph.len() <= repeat(e, names, b, k).accept < repeat(e, names, b, k).build.graph.len(),
    decreases e, 1nat, k,
{
    if k <= 1 {
        lemma_shift(e, names, b, c, base, d);
        lemma_thompson(e, names, b);
    } else {
        lemma_shift_repeat(e, names, b, c, base, d, (k - 1) as nat);
        let p = repeat(e, names, b, (k - 1) as nat);
        let q = repeat(e, names, c, (k - 1) as nat);
        let again_b = Build { graph: p.build.graph, next_group: b.next_group };
        let again_c = Build { graph: q.build.graph, next_group: c.next_group };
        lemma_shift(e, names, again_b, again_c, base, d);
        lemma_thompson(e, names, again_b);
        lemma_shift_joined(
            p,
            thompson(e, names, again_b),
            q,
            thompson(e, names, again_c),
            base,
            d,
        );
    }
}

proof fn lemma_shift_exact(e: ExprView, names: Names, b: Build, c: Build, base: int, d: int, n: nat)
    requires
        shifted(b.graph, base, c.graph, d),
        0 <= base <= b.graph.len(),
        0 <= base + d,
        b.next_group == c.next_group,
    ensures
        same_shape(exact(e, names, b, n), exact(e, names, c, n), base, d),
        b.graph.len() <= exact(e, names, b, n).accept < exact(e, names, b, n).build.graph.len(),
        b.graph.len() <= exact(e, names, b, n).start < exact(e, names, b, n).build.graph.len(),
    decreases e, 2nat, 0nat,
{
    crate::pieces::lemma_exact(e, names, b, n);
    if n == 0 {
        lemma_shift_pair(
            Build { graph: b.graph, next_group: b.next_group + declared(e).len() },
            Build { graph: c.graph, next_group: c.next_group + declared(e).len() },
            base,
            d,
            Label::Epsilon,
        );
    } else {
        lemma_shift_repeat(e, names, b, c, base, d, n);
    }
}

proof fn lemma_shift_at_least(
    e: ExprView,
    names: Names,
    b: Build,
    c: Build,
    base: int,
    d: int,
    n: nat,
    lazy: bool,
)
    requires
        shifted(b.graph, base, c.graph, d),
        0 <= base <= b.graph.len(),
        0 <= base + d,
        b.next_group == c.next_group,
    ensures
        same_shape(at_least(e, names, b, n, lazy), at_least(e, names, c, n, lazy), base, d),
    decreases e, 3nat, 0nat,
{
    lemma_shift_exact(e, names, b, c, base, d, n);
    let head_b = exact(e, names, b, n);
    let head_c = exact(e, names, c, n);
    let again_b = Build { graph: head_b.build.graph, next_group: b.next_group };
    let again_c = Build { graph: head_c.build.graph, next_group: c.next_group };
    lemma_shift(e, names, again_b, again_c, base, d);
    lemma_thompson(e, names, again_b);
    let q = if lazy {
        Quantifier::ZeroOrMoreLazy
    } else {
        Quantifier::ZeroOrMore
    };
    lemma_shift_looped(thompson(e, names, again_b), thompson(e, names, again_c), base, d, q);
    crate::pieces::lemma_looped(again_b, thompson(e, names, again_b), q, declared(e).len(), false);
    lemma_shift_joined(
        head_b,
        looped(thompson(e, names, again_b), q),
        head_c,
        looped(thompson(e, names, again_c), q),
        base,
        d,
    );
}

proof fn lemma_shift_optional(
    e: ExprView,
    names: Names,
    g: Graph,
    h: Graph,
    base: int,
    d: int,
    first_group: int,
    lazy: bool,
    exit: int,
    prev: int,
    k: nat,
)
    requires
        shifted(g, base, h, d),
        0 <= base <= prev < g.len(),
        0 <= base + d,
    ensures
        shifted(
            optional_copies(e, names, g, first_group, lazy, exit, prev, k).0,
            base,
            optional_copies(e, names, h, first_group, lazy, exit + d, prev + d, k).0,
            d,
        ),
        optional_copies(e, names, h, first_group, lazy, exit + d, prev + d, k).1
            == optional_copies(e, names, g, first_group, lazy, exit, prev, k).1 + d,
        base <= optional_copies(e, names, g, first_group, lazy, exit, prev, k).1 < optional_copies(
            e,
            names,
            g,
            first_group,
            lazy,
            exit,
            prev,
            k,
        ).0.len(),
    decreases e, 1nat, k,
{
    if k > 0 {
        lemma_shift_optional(e, names, g, h, base, d, first_group, lazy, exit, prev, (k - 1) as nat);
        let (g1, last) = optional_copies(
            e,
            names,
            g,
            first_group,
            lazy,
            exit,
            prev,
            (k - 1) as nat,
        );
        let (h1, last_c) = optional_copies(
            e,
            names,
            h,
            first_group,
            lazy,
            exit + d,
            prev + d,
            (k - 1) as nat,
        );
        let again_b = Build { graph: g1, next_group: first_group };
        let again_c = Build { graph: h1, next_group: first_group };
        lemma_shift(e, names, again_b, again_c, base, d);
        lemma_thompson(e, names, again_b);
        let p = thompson(e, names, again_b);
        let q = thompson(e, names, again_c);
        if lazy {
            lemma_shift_edge(p.build.graph, base, q.build.graph, d, last, Label::Epsilon, exit);
            lemma_shift_edge(
                with_edge(p.build.graph, last, Label::Epsilon, exit),
                base,
                with_edge(q.build.graph, last + d, Label::Epsilon, exit + d),
                d,
                last,
                Label::Epsilon,
                p.start,
            );
        } else {
            lemma_shift_edge(p.build.graph, base, q.build.graph, d, last, Label::Epsilon, p.start);
            lemma_shift_edge(
                with_edge(p.build.graph, last, Label::Epsilon, p.start),
                base,
                with_edge(q.build.graph, last + d, Label::Epsilon, p.start + d),
                d,
                last,
                Label::Epsilon,
                exit,
            );
        }
    }
}

proof fn lemma_shift_between(
    e: ExprView,
    names: Names,
    b: Build,
    c: Build,
    base: int,
    d: int,
    n: nat,
    m: nat,
    lazy: bool,
)
    requires
        shifted(b.graph, base, c.graph, d),
        0 <= base <= b.graph.len(),
        0 <= base + d,
        b.next_group == c.next_group,
    ensures
        same_shape(between(e, names, b, n, m, lazy), between(e, names, c, n, m, lazy), base, d),
    decreases e, 3nat, 0nat,
{
    lemma_shift_exact(e, names, b, c, base, d, n);
    if m > n {
        let head_b = exact(e, names, b, n);
        let head_c = exact(e, names, c, n);
        let s = head_b.build.graph.len() as int;
        let a = s + 1;
        lemma_shift_state(head_b.build.graph, base, head_c.build.graph, d);
        lemma_shift_state(with_state(head_b.build.graph), base, with_state(head_c.build.graph), d);
        let g2 = with_state(with_state(head_b.build.graph));
        let h2 = with_state(with_state(head_c.build.graph));
        lemma_shift_edge(g2, base, h2, d, s, Label::Epsilon, head_b.start);
        let g = with_edge(g2, s, Label::Epsilon, head_b.start);
        let h = with_edge(h2, s + d, Label::Epsilon, head_b.start + d);
        lemma_shift_optional(
            e,
            names,
            g,
            h,
            base,
            d,
            b.next_group,
            lazy,
            a,
            head_b.accept,
            (m - n) as nat,
        );
        let (copies_b, last) = optional_copies(
            e,
            names,
            g,
            b.next_group,
            lazy,
            a,
            head_b.accept,
            (m - n) as nat,
        );
        let (copies_c, last_c) = optional_copies(
            e,
            names,
            h,
            c.next_group,
            lazy,
            a + d,
            head_c.accept,
            (m - n) as nat,
        );
        lemma_shift_edge(copies_b, base, copies_c, d, last, Label::Epsilon, a);
    }
}

} // verus!
