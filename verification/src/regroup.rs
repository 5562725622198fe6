//! Which indices the groups of an expression get does not change what the
//! expression matches, as long as no backreference looks at them: pieces
//! that differ in the indices of their groups alone match the same spans.

use crate::ast::{ExprView, Quantifier};
use crate::complete::{
    consumes, lemma_automaton_plain, lemma_plain_crossing, lemma_plain_match_complete, passes, plain,
};
use crate::counted::copies;
use crate::engine::{ModeFlags, machine_of};
use crate::groups::{Names, declared};
use crate::paths::{Config, lemma_match_is_walk, origin, step, walk};
use crate::pieces::{no_backrefs, no_backrefs_upto};
use crate::ranges::count_of;
use crate::simulation::{Machine, match_at};
use crate::thompson::{
    Build, Graph, Label, Piece, at_least, automaton, between, branches, chain, empty_build, exact,
    grouped, joined, looped, optional_copies, pair, repeat, shorthand_label, thompson, with_edge,
    with_state,
};
use vstd::prelude::*;

verus! {

/// The labels `a` and `b` are the same, or both open a group, or both
/// close one.
pub open spec fn same_but_group(a: Label, b: Label) -> bool {
    (a is GroupStart && b is GroupStart) || (a is GroupEnd && b is GroupEnd) || a == b
}

/// `g` and `h` have the same states and the same edges, but for the
/// indices of the groups that their edges open and close.
pub open spec fn same_but_groups(g: Graph, h: Graph) -> bool {
    &&& g.len() == h.len()
    &&& forall|s: int| 0 <= s < g.len() ==> (#[trigger] g[s]).len() == h[s].len()
    &&& forall|s: int, j: int|
        0 <= s < g.len() && 0 <= j < g[s].len() ==> (#[trigger] g[s][j]).1 == h[s][j].1
            && same_but_group(g[s][j].0, h[s][j].0)
}

/// The pieces `p` and `q` have the same entry and exit and the same table
/// but for the indices of groups.
pub open spec fn same_but_numbers(p: Piece, q: Piece) -> bool {
    &&& same_but_groups(p.build.graph, q.build.graph)
    &&& p.start == q.start
    &&& p.accept == q.accept
}

proof fn lemma_regroup_state(g: Graph, h: Graph)
    requires
        same_but_groups(g, h),
    ensures
        same_but_groups(with_state(g), with_state(h)),
{
    let g2 = with_state(g);
    let h2 = with_state(h);
    assert forall|s: int| 0 <= s < g2.len() implies (#[trigger] g2[s]).len() == h2[s].len() by {
        if s < g.len() {
            assert(g2[s] == g[s]);
            assert(h2[s] == h[s]);
        }
    }
    assert forall|s: int, j: int| 0 <= s < g2.len() && 0 <= j < g2[s].len() implies (
    #[trigger] g2[s][j]).1 == h2[s][j].1 && same_but_group(g2[s][j].0, h2[s][j].0) by {
        assert(g2[s] == g[s]);
        assert(h2[s] == h[s]);
        assert(g[s][j].1 == h[s][j].1);
    }
}

proof fn lemma_regroup_edge(g: Graph, h: Graph, from: int, a: Label, b: Label, to: int)
    requires
        same_but_groups(g, h),
        same_but_group(a, b),
    ensures
        same_but_groups(with_edge(g, from, a, to), with_edge(h, from, b, to)),
{
    let g2 = with_edge(g, from, a, to);
    let h2 = with_edge(h, from, b, to);
    assert forall|s: int| 0 <= s < g2.len() implies (#[trigger] g2[s]).len() == h2[s].len() by {
        assert(g[s].len() == h[s].len());
    }
    assert forall|s: int, j: int| 0 <= s < g2.len() && 0 <= j < g2[s].len() implies (
    #[trigger] g2[s][j]).1 == h2[s][j].1 && same_but_group(g2[s][j].0, h2[s][j].0) by {
        assert(g[s].len() == h[s].len());
        if s == from && j == g[s].len() {
        } else {
            assert(g2[s][j] == g[s][j]);
            assert(h2[s][j] == h[s][j]);
            assert(g[s][j].1 == h[s][j].1);
        }
    }
}

proof fn lemma_regroup_pair(b: Build, c: Build, label: Label)
    requires
        same_but_groups(b.graph, c.graph),
    ensures
        same_but_numbers(pair(b, label), pair(c, label)),
{
    lemma_regroup_state(b.graph, c.graph);
    lemma_regroup_state(with_state(b.graph), with_state(c.graph));
    lemma_regroup_edge(
        with_state(with_state(b.graph)),
        with_state(with_state(c.graph)),
        b.graph.len() as int,
        label,
        label,
        b.graph.len() as int + 1,
    );
}

proof fn lemma_regroup_joined(p: Piece, c: Piece, twin: Piece, after: Piece)
    requires
        p.accept == twin.accept,
        p.start == twin.start,
        same_but_numbers(c, after),
    ensures
        same_but_numbers(joined(p, c), joined(twin, after)),
{
    lemma_regroup_edge(
        c.build.graph,
        after.build.graph,
        p.accept,
        Label::Epsilon,
        Label::Epsilon,
        c.start,
    );
}

proof fn lemma_regroup_looped(p: Piece, twin: Piece, q: Quantifier)
    requires
        same_but_numbers(p, twin),
    ensures
        same_but_numbers(looped(p, q), looped(twin, q)),
{
    let s = p.build.graph.len() as int;
    let a = s + 1;
    let e = Label::Epsilon;
    lemma_regroup_state(p.build.graph, twin.build.graph);
    lemma_regroup_state(with_state(p.build.graph), with_state(twin.build.graph));
    let g = with_state(with_state(p.build.graph));
    let h = with_state(with_state(twin.build.graph));
    match q {
        Quantifier::ZeroOrMore => {
            lemma_regroup_edge(g, h, s, e, e, p.start);
            let g1 = with_edge(g, s, e, p.start);
            let h1 = with_edge(h, s, e, p.start);
            lemma_regroup_edge(g1, h1, s, e, e, a);
            let g2 = with_edge(g1, s, e, a);
            let h2 = with_edge(h1, s, e, a);
            lemma_regroup_edge(g2, h2, p.accept, e, e, p.start);
            let g3 = with_edge(g2, p.accept, e, p.start);
            let h3 = with_edge(h2, p.accept, e, p.start);
            lemma_regroup_edge(g3, h3, p.accept, e, e, a);
        },
        Quantifier::ZeroOrMoreLazy => {
            lemma_regroup_edge(g, h, s, e, e, a);
            let g1 = with_edge(g, s, e, a);
            let h1 = with_edge(h, s, e, a);
            lemma_regroup_edge(g1, h1, s, e, e, p.start);
            let g2 = with_edge(g1, s, e, p.start);
            let h2 = with_edge(h1, s, e, p.start);
            lemma_regroup_edge(g2, h2, p.accept, e, e, a);
            let g3 = with_edge(g2, p.accept, e, a);
            let h3 = with_edge(h2, p.accept, e, a);
            lemma_regroup_edge(g3, h3, p.accept, e, e, p.start);
        },
        Quantifier::OneOrMore => {
            lemma_regroup_edge(g, h, s, e, e, p.start);
            let g1 = with_edge(g, s, e, p.start);
            let h1 = with_edge(h, s, e, p.start);
            lemma_regroup_edge(g1, h1, p.accept, e, e, p.start);
            let g2 = with_edge(g1, p.accept, e, p.start);
            let h2 = with_edge(h1, p.accept, e, p.start);
            lemma_regroup_edge(g2, h2, p.accept, e, e, a);
        },
        Quantifier::OneOrMoreLazy => {
            lemma_regroup_edge(g, h, s, e, e, p.start);
            let g1 = with_edge(g, s, e, p.start);
            let h1 = with_edge(h, s, e, p.start);
            lemma_regroup_edge(g1, h1, p.accept, e, e, a);
            let g2 = with_edge(g1, p.accept, e, a);
            let h2 = with_edge(h1, p.accept, e, a);
            lemma_regroup_edge(g2, h2, p.accept, e, e, p.start);
        },
        _ => {
            lemma_regroup_edge(g, h, s, e, e, p.start);
            let g1 = with_edge(g, s, e, p.start);
            let h1 = with_edge(h, s, e, p.start);
            lemma_regroup_edge(g1, h1, s, e, e, a);
            let g2 = with_edge(g1, s, e, a);
            let h2 = with_edge(h1, s, e, a);
            lemma_regroup_edge(g2, h2, p.accept, e, e, a);
        },
    }
}

/// The piece of an expression without backreferences is the same but for
/// the indices of its groups, whatever index its first group gets and
/// whatever the groups of the pattern are called.
pub proof fn lemma_regroup(e: ExprView, names: Names, b: Build, others: Names, c: Build)
    requires
        no_backrefs(e),
        same_but_groups(b.graph, c.graph),
    ensures
        same_but_numbers(thompson(e, names, b), thompson(e, others, c)),
    decreases e, 0nat, 0nat,
{
    match e {
        ExprView::Empty => lemma_regroup_pair(b, c, Label::Epsilon),
        ExprView::Literal(ch) => lemma_regroup_pair(b, c, Label::Char(ch)),
        ExprView::Any => lemma_regroup_pair(b, c, Label::Any),
        ExprView::Sequence(es) => {
            if es.len() == 0 {
                lemma_regroup_pair(b, c, Label::Epsilon);
            } else {
                lemma_regroup_chain(es, names, b, others, c, es.len());
            }
        },
        ExprView::Alternation(es) => {
            if es.len() == 0 {
                lemma_regroup_pair(b, c, Label::Epsilon);
            } else if es.len() == 1 {
                assert(no_backrefs_upto(es, 1) == (no_backrefs_upto(es, 0) && no_backrefs(es[0])));
                lemma_regroup(es[0], names, b, others, c);
            } else {
                let s = b.graph.len() as int;
                lemma_regroup_state(b.graph, c.graph);
                lemma_regroup_state(with_state(b.graph), with_state(c.graph));
                let around_b = Build {
                    graph: with_state(with_state(b.graph)),
                    next_group: b.next_group,
                };
                let around_c = Build {
                    graph: with_state(with_state(c.graph)),
                    next_group: c.next_group,
                };
                lemma_regroup_branches(es, names, around_b, others, around_c, s, s + 1, es.len());
            }
        },
        ExprView::CharacterClass(cc) => lemma_regroup_pair(
            b,
            c,
            Label::Class { negated: cc.negated, items: cc.items },
        ),
        ExprView::Quantified { expr, quantifier } => match quantifier {
            Quantifier::Exactly(n) => lemma_regroup_exact(*expr, names, b, others, c, n as nat),
            Quantifier::AtLeast(n) => lemma_regroup_at_least(
                *expr,
                names,
                b,
                others,
                c,
                n as nat,
                false,
            ),
            Quantifier::AtLeastLazy(n) => lemma_regroup_at_least(
                *expr,
                names,
                b,
                others,
                c,
                n as nat,
                true,
            ),
            Quantifier::Between(n, m) => lemma_regroup_between(
                *expr,
                names,
                b,
                others,
                c,
                n as nat,
                m as nat,
                false,
            ),
            Quantifier::BetweenLazy(n, m) => lemma_regroup_between(
                *expr,
                names,
                b,
                others,
                c,
                n as nat,
                m as nat,
                true,
            ),
            q => {
                lemma_regroup(*expr, names, b, others, c);
                lemma_regroup_looped(thompson(*expr, names, b), thompson(*expr, others, c), q);
            },
        },
        ExprView::Group(inner) => lemma_regroup_grouped(*inner, names, b, others, c),
        ExprView::NamedGroup { name, pattern } => lemma_regroup_grouped(*pattern, names, b, others, c),
        ExprView::NonCapturingGroup(inner) => lemma_regroup(*inner, names, b, others, c),
        ExprView::AtomicGroup(inner) => lemma_regroup(*inner, names, b, others, c),
        ExprView::StartAnchor => lemma_regroup_pair(b, c, Label::StartAnchor),
        ExprView::EndAnchor => lemma_regroup_pair(b, c, Label::EndAnchor),
        ExprView::Backreference(n) => {},
        ExprView::RelativeBackreference(n) => {},
        ExprView::NamedBackreference(name) => {},
        ExprView::Shorthand(ch) => lemma_regroup_pair(b, c, shorthand_label(ch)),
        ExprView::WordBoundary => lemma_regroup_pair(b, c, Label::WordBoundary),
        ExprView::NonWordBoundary => lemma_regroup_pair(b, c, Label::NonWordBoundary),
        ExprView::Lookahead(_) => lemma_regroup_pair(b, c, Label::Epsilon),
        ExprView::NegativeLookahead(_) => lemma_regroup_pair(b, c, Label::Epsilon),
        ExprView::Lookbehind(_) => lemma_regroup_pair(b, c, Label::Epsilon),
        ExprView::NegativeLookbehind(_) => lemma_regroup_pair(b, c, Label::Epsilon),
        ExprView::ConditionalGroup(_) => lemma_regroup_pair(b, c, Label::Epsilon),
    }
}

proof fn lemma_regroup_grouped(inner: ExprView, names: Names, b: Build, others: Names, c: Build)
    requires
        no_backrefs(inner),
        same_but_groups(b.graph, c.graph),
    ensures
        same_but_numbers(grouped(inner, names, b), grouped(inner, others, c)),
    decreases inner, 1nat, 0nat,
{
    let start = b.graph.len() as int;
    lemma_regroup_state(b.graph, c.graph);
    let first_b = Build { graph: with_state(b.graph), next_group: b.next_group + 1 };
    let first_c = Build { graph: with_state(c.graph), next_group: c.next_group + 1 };
    lemma_regroup(inner, names, first_b, others, first_c);
    let p = thompson(inner, names, first_b);
    let q = thompson(inner, others, first_c);
    let accept = p.build.graph.len() as int;
    lemma_regroup_state(p.build.graph, q.build.graph);
    let g = with_state(p.build.graph);
    let h = with_state(q.build.graph);
    let opens_b = Label::GroupStart(b.next_group as u32);
    let opens_c = Label::GroupStart(c.next_group as u32);
    let closes_b = Label::GroupEnd(b.next_group as u32);
    let closes_c = Label::GroupEnd(c.next_group as u32);
    lemma_regroup_edge(g, h, start, opens_b, opens_c, p.start);
    let g1 = with_edge(g, start, opens_b, p.start);
    let h1 = with_edge(h, start, opens_c, p.start);
    lemma_regroup_edge(g1, h1, p.accept, closes_b, closes_c, accept);
}

proof fn lemma_regroup_chain(
    es: Seq<ExprView>,
    names: Names,
    b: Build,
    others: Names,
    c: Build,
    k: nat,
)
    requires
        no_backrefs_upto(es, k),
        same_but_groups(b.graph, c.graph),
        1 <= k <= es.len(),
    ensures
        same_but_numbers(chain(es, names, b, k), chain(es, others, c, k)),
    decreases es, 0nat, k,
{
    assert(no_backrefs(es[k - 1]));
    if k == 1 {
        lemma_regroup(es[0], names, b, others, c);
    } else {
        lemma_regroup_chain(es, names, b, others, c, (k - 1) as nat);
        let p = chain(es, names, b, (k - 1) as nat);
        let q = chain(es, others, c, (k - 1) as nat);
        lemma_regroup(es[k - 1], names, p.build, others, q.build);
        lemma_regroup_joined(
            p,
            thompson(es[k - 1], names, p.build),
            q,
            thompson(es[k - 1], others, q.build),
        );
    }
}

proof fn lemma_regroup_branches(
    es: Seq<ExprView>,
    names: Names,
    b: Build,
    others: Names,
    c: Build,
    start: int,
    accept: int,
    k: nat,
)
    requires
        no_backrefs_upto(es, k),
        same_but_groups(b.graph, c.graph),
        k <= es.len(),
    ensures
        same_but_groups(
            branches(es, names, b, start, accept, k).graph,
            branches(es, others, c, start, accept, k).graph,
        ),
    decreases es, 0nat, k,
{
    if k > 0 {
        lemma_regroup_branches(es, names, b, others, c, start, accept, (k - 1) as nat);
        let prev_b = branches(es, names, b, start, accept, (k - 1) as nat);
        let prev_c = branches(es, others, c, start, accept, (k - 1) as nat);
        lemma_regroup(es[k - 1], names, prev_b, others, prev_c);
        let p = thompson(es[k - 1], names, prev_b);
        let q = thompson(es[k - 1], others, prev_c);
        let e = Label::Epsilon;
        lemma_regroup_edge(p.build.graph, q.build.graph, start, e, e, p.start);
        let g1 = with_edge(p.build.graph, start, e, p.start);
        let h1 = with_edge(q.build.graph, start, e, p.start);
        lemma_regroup_edge(g1, h1, p.accept, e, e, accept);
    }
}

proof fn lemma_regroup_repeat(e: ExprView, names: Names, b: Build, others: Names, c: Build, k: nat)
    requires
        no_backrefs(e),
        same_but_groups(b.graph, c.graph),
    ensures
        same_but_numbers(repeat(e, names, b, k), repeat(e, others, c, k)),
    decreases e, 1nat, k,
{
    if k <= 1 {
        lemma_regroup(e, names, b, others, c);
    } else {
        lemma_regroup_repeat(e, names, b, others, c, (k - 1) as nat);
        let p = repeat(e, names, b, (k - 1) as nat);
        let q = repeat(e, others, c, (k - 1) as nat);
        let again_b = Build { graph: p.build.graph, next_group: b.next_group };
        let again_c = Build { graph: q.build.graph, next_group: c.next_group };
        lemma_regroup(e, names, again_b, others, again_c);
        lemma_regroup_joined(p, thompson(e, names, again_b), q, thompson(e, others, again_c));
    }
}

proof fn lemma_regroup_exact(e: ExprView, names: Names, b: Build, others: Names, c: Build, n: nat)
    requires
        no_backrefs(e),
        same_but_groups(b.graph, c.graph),
    ensures
        same_but_numbers(exact(e, names, b, n), exact(e, others, c, n)),
    decreases e, 2nat, 0nat,
{
    if n == 0 {
        lemma_regroup_pair(
            Build { graph: b.graph, next_group: b.next_group + declared(e).len() },
            Build { graph: c.graph, next_group: c.next_group + declared(e).len() },
            Label::Epsilon,
        );
    } else {
        lemma_regroup_repeat(e, names, b, others, c, n);
    }
}

proof fn lemma_regroup_at_least(
    e: ExprView,
    names: Names,
    b: Build,
    others: Names,
    c: Build,
    n: nat,
    lazy: bool,
)
    requires
        no_backrefs(e),
        same_but_groups(b.graph, c.graph),
    ensures
        same_but_numbers(at_least(e, names, b, n, lazy), at_least(e, others, c, n, lazy)),
    decreases e, 3nat, 0nat,
{
    lemma_regroup_exact(e, names, b, others, c, n);
    let head_b = exact(e, names, b, n);
    let head_c = exact(e, others, c, n);
    let again_b = Build { graph: head_b.build.graph, next_group: b.next_group };
    let again_c = Build { graph: head_c.build.graph, next_group: c.next_group };
    lemma_regroup(e, names, again_b, others, again_c);
    let q = if lazy {
        Quantifier::ZeroOrMoreLazy
    } else {
        Quantifier::ZeroOrMore
    };
    lemma_regroup_looped(thompson(e, names, again_b), thompson(e, others, again_c), q);
    lemma_regroup_joined(
        head_b,
        looped(thompson(e, names, again_b), q),
        head_c,
        looped(thompson(e, others, again_c), q),
    );
}

proof fn lemma_regroup_optional(
    e: ExprView,
    names: Names,
    g: Graph,
    group_b: int,
    others: Names,
    h: Graph,
    group_c: int,
    lazy: bool,
    exit: int,
    prev: int,
    k: nat,
)
    requires
        no_backrefs(e),
        same_but_groups(g, h),
    ensures
        same_but_groups(
            optional_copies(e, names, g, group_b, lazy, exit, prev, k).0,
            optional_copies(e, others, h, group_c, lazy, exit, prev, k).0,
        ),
        optional_copies(e, names, g, group_b, lazy, exit, prev, k).1 == optional_copies(
            e,
            others,
            h,
            group_c,
            lazy,
            exit,
            prev,
            k,
        ).1,
    decreases e, 1nat, k,
{
    if k > 0 {
        lemma_regroup_optional(e, names, g, group_b, others, h, group_c, lazy, exit, prev, (k - 1) as nat);
        let (g1, last) = optional_copies(e, names, g, group_b, lazy, exit, prev, (k - 1) as nat);
        let (h1, last_c) = optional_copies(e, others, h, group_c, lazy, exit, prev, (k - 1) as nat);
        let again_b = Build { graph: g1, next_group: group_b };
        let again_c = Build { graph: h1, next_group: group_c };
        lemma_regroup(e, names, again_b, others, again_c);
        let p = thompson(e, names, again_b);
        let q = thompson(e, others, again_c);
        let eps = Label::Epsilon;
        if lazy {
            lemma_regroup_edge(p.build.graph, q.build.graph, last, eps, eps, exit);
            lemma_regroup_edge(
                with_edge(p.build.graph, last, eps, exit),
                with_edge(q.build.graph, last, eps, exit),
                last,
                eps,
                eps,
                p.start,
            );
        } else {
            lemma_regroup_edge(p.build.graph, q.build.graph, last, eps, eps, p.start);
            lemma_regroup_edge(
                with_edge(p.build.graph, last, eps, p.start),
                with_edge(q.build.graph, last, eps, p.start),
                last,
                eps,
                eps,
                exit,
            );
        }
    }
}

proof fn lemma_regroup_between(
    e: ExprView,
    names: Names,
    b: Build,
    others: Names,
    c: Build,
    n: nat,
    m: nat,
    lazy: bool,
)
    requires
        no_backrefs(e),
        same_but_groups(b.graph, c.graph),
    ensures
        same_but_numbers(between(e, names, b, n, m, lazy), between(e, others, c, n, m, lazy)),
    decreases e, 3nat, 0nat,
{
    lemma_regroup_exact(e, names, b, others, c, n);
    if m > n {
        let head_b = exact(e, names, b, n);
        let head_c = exact(e, others, c, n);
        let s = head_b.build.graph.len() as int;
        let a = s + 1;
        let eps = Label::Epsilon;
        lemma_regroup_state(head_b.build.graph, head_c.build.graph);
        lemma_regroup_state(with_state(head_b.build.graph), with_state(head_c.build.graph));
        let g2 = with_state(with_state(head_b.build.graph));
        let h2 = with_state(with_state(head_c.build.graph));
        lemma_regroup_edge(g2, h2, s, eps, eps, head_b.start);
        let g = with_edge(g2, s, eps, head_b.start);
        let h = with_edge(h2, s, eps, head_b.start);
        lemma_regroup_optional(
            e,
            names,
            g,
            b.next_group,
            others,
            h,
            c.next_group,
            lazy,
            a,
            head_b.accept,
            (m - n) as nat,
        );
        let (copies_b, last) = optional_copies(
            e,
            names,
            g,
            b.next_group,
            lazy,
            a,
            head_b.accept,
            (m - n) as nat,
        );
        let (copies_c, last_c) = optional_copies(
            e,
            others,
            h,
            c.next_group,
            lazy,
            a,
            head_c.accept,
            (m - n) as nat,
        );
        lemma_regroup_edge(copies_b, copies_c, last, eps, eps, a);
    }
}

/// A walk through an automaton without backreferences goes the same way
/// through every automaton that is the same but for the indices of groups:
/// through the same states, at the same positions.
pub proof fn lemma_walk_regrouped(
    m: Machine,
    n: Machine,
    input: Seq<char>,
    c: Config,
    d: Config,
    path: Seq<int>,
)
    requires
        plain(m),
        same_but_groups(m.graph, n.graph),
        m.flags == n.flags,
        c.state == d.state,
        c.pos == d.pos,
        walk(m, input, c, path) is Some,
    ensures
        walk(n, input, d, path) is Some,
        walk(n, input, d, path)->Some_0.state == walk(m, input, c, path)->Some_0.state,
        walk(n, input, d, path)->Some_0.pos == walk(m, input, c, path)->Some_0.pos,
    decreases path.len(),
{
    if path.len() > 0 {
        lemma_walk_regrouped(m, n, input, c, d, path.drop_last());
        let before = walk(m, input, c, path.drop_last())->Some_0;
        let other = walk(n, input, d, path.drop_last())->Some_0;
        let j = path.last();
        assert(step(m, input, before, j) is Some);
        let a = m.graph[before.state][j];
        let b = n.graph[before.state][j];
        assert(a.1 == b.1 && same_but_group(a.0, b.0));
        lemma_plain_crossing(m, input, before.pos, a.0, before.caps);
        if a.0 == b.0 {
            lemma_plain_crossing(n, input, before.pos, b.0, other.caps);
            assert(passes(m, input, before.pos, a.0) == passes(n, input, before.pos, b.0));
            assert(consumes(m, input, before.pos, a.0) == consumes(n, input, before.pos, b.0));
        }
    }
}

/// Two automata without backreferences that are the same but for the
/// indices of groups match the same spans.
pub proof fn lemma_regrouped_same_span(m: Machine, n: Machine, input: Seq<char>, start: int)
    requires
        plain(m),
        plain(n),
        same_but_groups(m.graph, n.graph),
        m.start == n.start,
        m.accept == n.accept,
        m.flags == n.flags,
        0 <= start <= input.len(),
    ensures
        match_at(m, input, start) is Some <==> match_at(n, input, start) is Some,
        match_at(m, input, start) is Some ==> match_at(m, input, start)->Some_0.0 == match_at(
            n,
            input,
            start,
        )->Some_0.0,
{
    if match_at(m, input, start) is Some {
        lemma_span_regrouped(m, n, input, start);
    }
    if match_at(n, input, start) is Some {
        assert(same_but_groups(n.graph, m.graph)) by {
            assert forall|s: int, j: int|
                0 <= s < n.graph.len() && 0 <= j < n.graph[s].len() implies (
            #[trigger] n.graph[s][j]).1 == m.graph[s][j].1 && same_but_group(
                n.graph[s][j].0,
                m.graph[s][j].0,
            ) by {
                assert(m.graph[s].len() == n.graph[s].len());
                assert(m.graph[s][j].1 == n.graph[s][j].1);
            }
            assert forall|s: int| 0 <= s < n.graph.len() implies (#[trigger] n.graph[s]).len()
                == m.graph[s].len() by {
                assert(m.graph[s].len() == n.graph[s].len());
            }
        }
        lemma_span_regrouped(n, m, input, start);
    }
}

proof fn lemma_span_regrouped(m: Machine, n: Machine, input: Seq<char>, start: int)
    requires
        plain(m),
        plain(n),
        same_but_groups(m.graph, n.graph),
        m.start == n.start,
        m.accept == n.accept,
        m.flags == n.flags,
        0 <= start <= input.len(),
        match_at(m, input, start) is Some,
    ensures
        match_at(n, input, start) is Some,
        match_at(n, input, start)->Some_0.0 >= match_at(m, input, start)->Some_0.0,
{
    lemma_match_is_walk(m, input, start);
    let end = match_at(m, input, start)->Some_0;
    let path = choose|path: Seq<int>| #[trigger]
        walk(m, input, origin(m, start), path) == Some(
            Config { state: m.accept, pos: end.0, caps: end.1 },
        );
    lemma_walk_regrouped(m, n, input, origin(m, start), origin(n, start), path);
    lemma_plain_match_complete(n, input, start, path);
}

/// For an expression without backreferences and `n` of at least 1, `e{n}`
/// matches what `e` written `n` times in a row matches: at every start both
/// patterns have a match or neither has, and the matches end at the same
/// position.
pub proof fn lemma_exactly_matches_like_sequence(
    e: ExprView,
    flags: ModeFlags,
    n: u32,
    input: Seq<char>,
    start: int,
)
    requires
        no_backrefs(e),
        n >= 1,
        0 <= start <= input.len(),
    ensures
        match_at(machine_of(count_of(e, n), flags), input, start) is Some <==> match_at(
            machine_of(ExprView::Sequence(copies(e, n as nat)), flags),
            input,
            start,
        ) is Some,
        match_at(machine_of(count_of(e, n), flags), input, start) is Some ==> match_at(
            machine_of(count_of(e, n), flags),
            input,
            start,
        )->Some_0.0 == match_at(
            machine_of(ExprView::Sequence(copies(e, n as nat)), flags),
            input,
            start,
        )->Some_0.0,
{
    let counted = count_of(e, n);
    let written = ExprView::Sequence(copies(e, n as nat));
    let b0 = empty_build();
    lemma_copies_plain(e, n as nat, n as nat);
    lemma_automaton_plain(counted, flags);
    lemma_automaton_plain(written, flags);
    assert(automaton(counted) == exact(e, declared(counted), b0, n as nat));
    assert(automaton(written) == chain(copies(e, n as nat), declared(written), b0, n as nat));
    lemma_repeat_is_chain(e, declared(counted), declared(written), n as nat, n as nat);
    lemma_regrouped_same_span(machine_of(counted, flags), machine_of(written, flags), input, start);
}

proof fn lemma_copies_plain(e: ExprView, n: nat, k: nat)
    requires
        no_backrefs(e),
        k <= n,
    ensures
        no_backrefs_upto(copies(e, n), k),
    decreases k,
{
    if k > 0 {
        lemma_copies_plain(e, n, (k - 1) as nat);
        assert(copies(e, n)[k - 1] == e);
    }
}

proof fn lemma_repeat_is_chain(e: ExprView, names: Names, others: Names, n: nat, k: nat)
    requires
        no_backrefs(e),
        1 <= k <= n,
    ensures
        same_but_numbers(
            repeat(e, names, empty_build(), k),
            chain(copies(e, n), others, empty_build(), k),
        ),
    decreases k,
{
    let b0 = empty_build();
    let es = copies(e, n);
    assert(same_but_groups(b0.graph, b0.graph));
    if k == 1 {
        assert(es[0] == e);
        lemma_regroup(e, names, b0, others, b0);
    } else {
        lemma_repeat_is_chain(e, names, others, n, (k - 1) as nat);
        let p = repeat(e, names, b0, (k - 1) as nat);
        let q = chain(es, others, b0, (k - 1) as nat);
        let again = Build { graph: p.build.graph, next_group: b0.next_group };
        assert(es[k - 1] == e);
        lemma_regroup(e, names, again, others, q.build);
        lemma_regroup_joined(p, thompson(e, names, again), q, thompson(e, others, q.build));
    }
}

} // verus!
