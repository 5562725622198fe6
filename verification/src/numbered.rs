//! The groups of an automaton have the indices of the groups that its
//! pattern declares: from 1 to their number. So has every span of a match.

use crate::ast::{ExprView, Quantifier};
use crate::engine::{ModeFlags, machine_of};
use crate::groups::{Names, declared, declared_upto};
use crate::paths::{Config, lemma_match_is_walk, opened, origin, step, walk};
use crate::simulation::{Machine, edges_of, match_at};
use crate::thompson::{
    Build, Graph, Label, Piece, at_least, automaton, between, branches, chain, empty_build, exact,
    grouped, joined, looped, named_target, optional_copies, pair, repeat, shorthand_label,
    thompson, with_edge, with_state,
};
use vstd::prelude::*;

verus! {

/// The edge label `label` opens or closes no group, or one with an index
/// from `lo` up to `hi`, `hi` left out.
pub open spec fn numbered_label(label: Label, lo: int, hi: int) -> bool {
    match label {
        Label::GroupStart(k) => lo <= k < hi,
        Label::GroupEnd(k) => lo <= k < hi,
        _ => true,
    }
}

/// Every group that an edge of `g` opens or closes has an index from `lo`
/// up to `hi`, `hi` left out.
pub open spec fn numbered_within(g: Graph, lo: int, hi: int) -> bool {
    forall|s: int, j: int|
        0 <= s < g.len() && 0 <= j < g[s].len() ==> numbered_label((#[trigger] g[s][j]).0, lo, hi)
}

/// The table `b` has room for `n` more groups between `lo` and `hi`.
pub open spec fn room(b: Build, n: nat, lo: int, hi: int) -> bool {
    &&& 0 <= lo <= b.next_group
    &&& b.next_group + n <= hi <= 0x1_0000_0000
    &&& numbered_within(b.graph, lo, hi)
}

proof fn lemma_numbered_state(g: Graph, lo: int, hi: int)
    requires
        numbered_within(g, lo, hi),
    ensures
        numbered_within(with_state(g), lo, hi),
{
    let g2 = with_state(g);
    assert forall|s: int, j: int| 0 <= s < g2.len() && 0 <= j < g2[s].len() implies numbered_label(
        (#[trigger] g2[s][j]).0,
        lo,
        hi,
    ) by {
        if s < g.len() {
            assert(g2[s] == g[s]);
            assert(numbered_label(g[s][j].0, lo, hi));
        }
    }
}

proof fn lemma_numbered_edge(g: Graph, from: int, label: Label, to: int, lo: int, hi: int)
    requires
        numbered_within(g, lo, hi),
        numbered_label(label, lo, hi),
    ensures
        numbered_within(with_edge(g, from, label, to), lo, hi),
{
    let g2 = with_edge(g, from, label, to);
    assert forall|s: int, j: int| 0 <= s < g2.len() && 0 <= j < g2[s].len() implies numbered_label(
        (#[trigger] g2[s][j]).0,
        lo,
        hi,
    ) by {
        if s == from && j == g[s].len() {
        } else {
            assert(g2[s][j] == g[s][j]);
            assert(numbered_label(g[s][j].0, lo, hi));
        }
    }
}

proof fn lemma_numbered_pair(b: Build, label: Label, lo: int, hi: int)
    requires
        numbered_within(b.graph, lo, hi),
        numbered_label(label, lo, hi),
    ensures
        numbered_within(pair(b, label).build.graph, lo, hi),
        pair(b, label).build.next_group == b.next_group,
{
    lemma_numbered_state(b.graph, lo, hi);
    lemma_numbered_state(with_state(b.graph), lo, hi);
    lemma_numbered_edge(
        with_state(with_state(b.graph)),
        b.graph.len() as int,
        label,
        b.graph.len() as int + 1,
        lo,
        hi,
    );
}

proof fn lemma_numbered_joined(p: Piece, c: Piece, lo: int, hi: int)
    requires
        numbered_within(c.build.graph, lo, hi),
    ensures
        numbered_within(joined(p, c).build.graph, lo, hi),
        joined(p, c).build.next_group == c.build.next_group,
{
    lemma_numbered_edge(c.build.graph, p.accept, Label::Epsilon, c.start, lo, hi);
}

proof fn lemma_numbered_looped(p: Piece, q: Quantifier, lo: int, hi: int)
    requires
        numbered_within(p.build.graph, lo, hi),
    ensures
        numbered_within(looped(p, q).build.graph, lo, hi),
        looped(p, q).build.next_group == p.build.next_group,
{
    let s = p.build.graph.len() as int;
    let a = s + 1;
    let e = Label::Epsilon;
    lemma_numbered_state(p.build.graph, lo, hi);
    lemma_numbered_state(with_state(p.build.graph), lo, hi);
    let g = with_state(with_state(p.build.graph));
    match q {
        Quantifier::ZeroOrMore => {
            lemma_numbered_edge(g, s, e, p.start, lo, hi);
            let g1 = with_edge(g, s, e, p.start);
            lemma_numbered_edge(g1, s, e, a, lo, hi);
            let g2 = with_edge(g1, s, e, a);
            lemma_numbered_edge(g2, p.accept, e, p.start, lo, hi);
            let g3 = with_edge(g2, p.accept, e, p.start);
            lemma_numbered_edge(g3, p.accept, e, a, lo, hi);
        },
        Quantifier::ZeroOrMoreLazy => {
            lemma_numbered_edge(g, s, e, a, lo, hi);
            let g1 = with_edge(g, s, e, a);
            lemma_numbered_edge(g1, s, e, p.start, lo, hi);
            let g2 = with_edge(g1, s, e, p.start);
            lemma_numbered_edge(g2, p.accept, e, a, lo, hi);
            let g3 = with_edge(g2, p.accept, e, a);
            lemma_numbered_edge(g3, p.accept, e, p.start, lo, hi);
        },
        Quantifier::OneOrMore => {
            lemma_numbered_edge(g, s, e, p.start, lo, hi);
            let g1 = with_edge(g, s, e, p.start);
            lemma_numbered_edge(g1, p.accept, e, p.start, lo, hi);
            let g2 = with_edge(g1, p.accept, e, p.start);
            lemma_numbered_edge(g2, p.accept, e, a, lo, hi);
        },
        Quantifier::OneOrMoreLazy => {
            lemma_numbered_edge(g, s, e, p.start, lo, hi);
            let g1 = with_edge(g, s, e, p.start);
            lemma_numbered_edge(g1, p.accept, e, a, lo, hi);
            let g2 = with_edge(g1, p.accept, e, a);
            lemma_numbered_edge(g2, p.accept, e, p.start, lo, hi);
        },
        _ => {
            lemma_numbered_edge(g, s, e, p.start, lo, hi);
            let g1 = with_edge(g, s, e, p.start);
            lemma_numbered_edge(g1, s, e, a, lo, hi);
            let g2 = with_edge(g1, s, e, a);
            lemma_numbered_edge(g2, p.accept, e, a, lo, hi);
        },
    }
}

/// The piece of an expression gives its groups the indices that the table
/// has room for, one after the other.
pub proof fn lemma_numbered(e: ExprView, names: Names, b: Build, lo: int, hi: int)
    requires
        room(b, declared(e).len(), lo, hi),
    ensures
        numbered_within(thompson(e, names, b).build.graph, lo, hi),
        thompson(e, names, b).build.next_group == b.next_group + declared(e).len(),
    decreases e, 0nat, 0nat,
{
    match e {
        ExprView::Empty => lemma_numbered_pair(b, Label::Epsilon, lo, hi),
        ExprView::Literal(ch) => lemma_numbered_pair(b, Label::Char(ch), lo, hi),
        ExprView::Any => lemma_numbered_pair(b, Label::Any, lo, hi),
        ExprView::Sequence(es) => {
            if es.len() == 0 {
                lemma_numbered_pair(b, Label::Epsilon, lo, hi);
                assert(declared_upto(es, 0).len() == 0);
            } else {
                lemma_numbered_chain(es, names, b, es.len(), lo, hi);
            }
        },
        ExprView::Alternation(es) => {
            if es.len() == 0 {
                lemma_numbered_pair(b, Label::Epsilon, lo, hi);
                assert(declared_upto(es, 0).len() == 0);
            } else if es.len() == 1 {
                assert(declared_upto(es, 1) == declared_upto(es, 0) + declared(es[0]));
                assert(declared_upto(es, 0).len() == 0);
                lemma_numbered(es[0], names, b, lo, hi);
            } else {
                lemma_numbered_state(b.graph, lo, hi);
                lemma_numbered_state(with_state(b.graph), lo, hi);
                let s = b.graph.len() as int;
                let around = Build {
                    graph: with_state(with_state(b.graph)),
                    next_group: b.next_group,
                };
                lemma_numbered_branches(es, names, around, s, s + 1, es.len(), es.len(), lo, hi);
            }
        },
        ExprView::CharacterClass(cc) => lemma_numbered_pair(
            b,
            Label::Class { negated: cc.negated, items: cc.items },
            lo,
            hi,
        ),
        ExprView::Quantified { expr, quantifier } => match quantifier {
            Quantifier::Exactly(n) => lemma_numbered_exact(*expr, names, b, n as nat, lo, hi),
            Quantifier::AtLeast(n) => lemma_numbered_at_least(
                *expr,
                names,
                b,
                n as nat,
                false,
                lo,
                hi,
            ),
            Quantifier::AtLeastLazy(n) => lemma_numbered_at_least(
                *expr,
                names,
                b,
                n as nat,
                true,
                lo,
                hi,
            ),
            Quantifier::Between(n, m) => lemma_numbered_between(
                *expr,
                names,
                b,
                n as nat,
                m as nat,
                false,
                lo,
                hi,
            ),
            Quantifier::BetweenLazy(n, m) => lemma_numbered_between(
                *expr,
                names,
                b,
                n as nat,
                m as nat,
                true,
                lo,
                hi,
            ),
            q => {
                lemma_numbered(*expr, names, b, lo, hi);
                lemma_numbered_looped(thompson(*expr, names, b), q, lo, hi);
            },
        },
        ExprView::Group(inner) => lemma_numbered_grouped(*inner, names, b, lo, hi),
        ExprView::NamedGroup { name, pattern } => lemma_numbered_grouped(*pattern, names, b, lo, hi),
        ExprView::NonCapturingGroup(inner) => lemma_numbered(*inner, names, b, lo, hi),
        ExprView::AtomicGroup(inner) => lemma_numbered(*inner, names, b, lo, hi),
        ExprView::StartAnchor => lemma_numbered_pair(b, Label::StartAnchor, lo, hi),
        ExprView::EndAnchor => lemma_numbered_pair(b, Label::EndAnchor, lo, hi),
        ExprView::Backreference(n) => lemma_numbered_pair(b, Label::Backref(n), lo, hi),
        ExprView::RelativeBackreference(n) => lemma_numbered_pair(
            b,
            Label::BackrefRelative(n),
            lo,
            hi,
        ),
        ExprView::NamedBackreference(name) => lemma_numbered_pair(
            b,
            Label::Backref(named_target(names, name)),
            lo,
            hi,
        ),
        ExprView::Shorthand(ch) => lemma_numbered_pair(b, shorthand_label(ch), lo, hi),
        ExprView::WordBoundary => lemma_numbered_pair(b, Label::WordBoundary, lo, hi),
        ExprView::NonWordBoundary => lemma_numbered_pair(b, Label::NonWordBoundary, lo, hi),
        ExprView::Lookahead(_) => lemma_numbered_pair(b, Label::Epsilon, lo, hi),
        ExprView::NegativeLookahead(_) => lemma_numbered_pair(b, Label::Epsilon, lo, hi),
        ExprView::Lookbehind(_) => lemma_numbered_pair(b, Label::Epsilon, lo, hi),
        ExprView::NegativeLookbehind(_) => lemma_numbered_pair(b, Label::Epsilon, lo, hi),
        ExprView::ConditionalGroup(_) => lemma_numbered_pair(b, Label::Epsilon, lo, hi),
    }
}

proof fn lemma_numbered_grouped(inner: ExprView, names: Names, b: Build, lo: int, hi: int)
    requires
        room(b, declared(inner).len() + 1, lo, hi),
    ensures
        numbered_within(grouped(inner, names, b).build.graph, lo, hi),
        grouped(inner, names, b).build.next_group == b.next_group + declared(inner).len() + 1,
    decreases inner, 1nat, 0nat,
{
    let id = b.next_group as u32;
    assert(id == b.next_group);
    let start = b.graph.len() as int;
    lemma_numbered_state(b.graph, lo, hi);
    let first = Build { graph: with_state(b.graph), next_group: b.next_group + 1 };
    lemma_numbered(inner, names, first, lo, hi);
    let p = thompson(inner, names, first);
    let accept = p.build.graph.len() as int;
    lemma_numbered_state(p.build.graph, lo, hi);
    let g = with_state(p.build.graph);
    lemma_numbered_edge(g, start, Label::GroupStart(id), p.start, lo, hi);
    let g1 = with_edge(g, start, Label::GroupStart(id), p.start);
    lemma_numbered_edge(g1, p.accept, Label::GroupEnd(id), accept, lo, hi);
}

proof fn lemma_numbered_chain(
    es: Seq<ExprView>,
    names: Names,
    b: Build,
    k: nat,
    lo: int,
    hi: int,
)
    requires
        room(b, declared_upto(es, k).len(), lo, hi),
        1 <= k <= es.len(),
    ensures
        numbered_within(chain(es, names, b, k).build.graph, lo, hi),
        chain(es, names, b, k).build.next_group == b.next_group + declared_upto(es, k).len(),
    decreases es, 0nat, k,
{
    assert(declared_upto(es, k) == declared_upto(es, (k - 1) as nat) + declared(es[k - 1]));
    if k == 1 {
        assert(declared_upto(es, 0).len() == 0);
        lemma_numbered(es[0], names, b, lo, hi);
    } else {
        lemma_numbered_chain(es, names, b, (k - 1) as nat, lo, hi);
        let p = chain(es, names, b, (k - 1) as nat);
        lemma_numbered(es[k - 1], names, p.build, lo, hi);
        lemma_numbered_joined(p, thompson(es[k - 1], names, p.build), lo, hi);
    }
}

proof fn lemma_numbered_branches(
    es: Seq<ExprView>,
    names: Names,
    b: Build,
    start: int,
    accept: int,
    k: nat,
    all: nat,
    lo: int,
    hi: int,
)
    requires
        room(b, declared_upto(es, k).len(), lo, hi),
        k <= es.len(),
    ensures
        numbered_within(branches(es, names, b, start, accept, k).graph, lo, hi),
        branches(es, names, b, start, accept, k).next_group == b.next_group + declared_upto(
            es,
            k,
        ).len(),
    decreases es, 0nat, k,
{
    if k > 0 {
        assert(declared_upto(es, k) == declared_upto(es, (k - 1) as nat) + declared(es[k - 1]));
        lemma_numbered_branches(es, names, b, start, accept, (k - 1) as nat, all, lo, hi);
        let prev = branches(es, names, b, start, accept, (k - 1) as nat);
        lemma_numbered(es[k - 1], names, prev, lo, hi);
        let c = thompson(es[k - 1], names, prev);
        lemma_numbered_edge(c.build.graph, start, Label::Epsilon, c.start, lo, hi);
        lemma_numbered_edge(
            with_edge(c.build.graph, start, Label::Epsilon, c.start),
            c.accept,
            Label::Epsilon,
            accept,
            lo,
            hi,
        );
    } else {
        assert(declared_upto(es, 0).len() == 0);
    }
}

proof fn lemma_numbered_repeat(e: ExprView, names: Names, b: Build, k: nat, lo: int, hi: int)
    requires
        room(b, declared(e).len(), lo, hi),
    ensures
        numbered_within(repeat(e, names, b, k).build.graph, lo, hi),
        repeat(e, names, b, k).build.next_group == b.next_group + declared(e).len(),
    decreases e, 1nat, k,
{
    if k <= 1 {
        lemma_numbered(e, names, b, lo, hi);
    } else {
        lemma_numbered_repeat(e, names, b, (k - 1) as nat, lo, hi);
        let p = repeat(e, names, b, (k - 1) as nat);
        let again = Build { graph: p.build.graph, next_group: b.next_group };
        lemma_numbered(e, names, again, lo, hi);
        lemma_numbered_joined(p, thompson(e, names, again), lo, hi);
    }
}

proof fn lemma_numbered_exact(e: ExprView, names: Names, b: Build, n: nat, lo: int, hi: int)
    requires
        room(b, declared(e).len(), lo, hi),
    ensures
        numbered_within(exact(e, names, b, n).build.graph, lo, hi),
        exact(e, names, b, n).build.next_group == b.next_group + declared(e).len(),
    decreases e, 2nat, 0nat,
{
    if n == 0 {
        lemma_numbered_pair(
            Build { graph: b.graph, next_group: b.next_group + declared(e).len() },
            Label::Epsilon,
            lo,
            hi,
        );
    } else {
        lemma_numbered_repeat(e, names, b, n, lo, hi);
    }
}

proof fn lemma_numbered_at_least(
    e: ExprView,
    names: Names,
    b: Build,
    n: nat,
    lazy: bool,
    lo: int,
    hi: int,
)
    requires
        room(b, declared(e).len(), lo, hi),
    ensures
        numbered_within(at_least(e, names, b, n, lazy).build.graph, lo, hi),
        at_least(e, names, b, n, lazy).build.next_group == b.next_group + declared(e).len(),
    decreases e, 3nat, 0nat,
{
    lemma_numbered_exact(e, names, b, n, lo, hi);
    let head = exact(e, names, b, n);
    let again = Build { graph: head.build.graph, next_group: b.next_group };
    lemma_numbered(e, names, again, lo, hi);
    let q = if lazy {
        Quantifier::ZeroOrMoreLazy
    } else {
        Quantifier::ZeroOrMore
    };
    lemma_numbered_looped(thompson(e, names, again), q, lo, hi);
    lemma_numbered_joined(head, looped(thompson(e, names, again), q), lo, hi);
}

proof fn lemma_numbered_optional(
    e: ExprView,
    names: Names,
    g: Graph,
    first_group: int,
    lazy: bool,
    exit: int,
    prev: int,
    k: nat,
    lo: int,
    hi: int,
)
    requires
        room(Build { graph: g, next_group: first_group }, declared(e).len(), lo, hi),
    ensures
        numbered_within(optional_copies(e, names, g, first_group, lazy, exit, prev, k).0, lo, hi),
    decreases e, 1nat, k,
{
    if k > 0 {
        lemma_numbered_optional(e, names, g, first_group, lazy, exit, prev, (k - 1) as nat, lo, hi);
        let (g1, last) = optional_copies(
            e,
            names,
            g,
            first_group,
            lazy,
            exit,
            prev,
            (k - 1) as nat,
        );
        let again = Build { graph: g1, next_group: first_group };
        lemma_numbered(e, names, again, lo, hi);
        let c = thompson(e, names, again);
        let eps = Label::Epsilon;
        if lazy {
            lemma_numbered_edge(c.build.graph, last, eps, exit, lo, hi);
            lemma_numbered_edge(with_edge(c.build.graph, last, eps, exit), last, eps, c.start, lo, hi);
        } else {
            lemma_numbered_edge(c.build.graph, last, eps, c.start, lo, hi);
            lemma_numbered_edge(with_edge(c.build.graph, last, eps, c.start), last, eps, exit, lo, hi);
        }
    }
}

proof fn lemma_numbered_between(
    e: ExprView,
    names: Names,
    b: Build,
    n: nat,
    m: nat,
    lazy: bool,
    lo: int,
    hi: int,
)
    requires
        room(b, declared(e).len(), lo, hi),
    ensures
        numbered_within(between(e, names, b, n, m, lazy).build.graph, lo, hi),
        between(e, names, b, n, m, lazy).build.next_group == b.next_group + declared(e).len(),
    decreases e, 3nat, 0nat,
{
    lemma_numbered_exact(e, names, b, n, lo, hi);
    if m > n {
        let head = exact(e, names, b, n);
        let s = head.build.graph.len() as int;
        let a = s + 1;
        let eps = Label::Epsilon;
        lemma_numbered_state(head.build.graph, lo, hi);
        lemma_numbered_state(with_state(head.build.graph), lo, hi);
        let g2 = with_state(with_state(head.build.graph));
        lemma_numbered_edge(g2, s, eps, head.start, lo, hi);
        let g = with_edge(g2, s, eps, head.start);
        lemma_numbered_optional(
            e,
            names,
            g,
            b.next_group,
            lazy,
            a,
            head.accept,
            (m - n) as nat,
            lo,
            hi,
        );
        let (copies, last) = optional_copies(
            e,
            names,
            g,
            b.next_group,
            lazy,
            a,
            head.accept,
            (m - n) as nat,
        );
        lemma_numbered_edge(copies, last, eps, a, lo, hi);
    }
}

/// A walk opens groups of the automaton only.
pub proof fn lemma_opened_numbered(
    m: Machine,
    input: Seq<char>,
    c: Config,
    path: Seq<int>,
    lo: int,
    hi: int,
)
    requires
        numbered_within(m.graph, lo, hi),
        walk(m, input, c, path) is Some,
    ensures
        forall|k: u32| opened(m, input, c, path).contains(k) ==> lo <= k < hi,
    decreases path.len(),
{
    if path.len() > 0 {
        let before = walk(m, input, c, path.drop_last())->Some_0;
        lemma_opened_numbered(m, input, c, path.drop_last(), lo, hi);
        let j = path.last();
        assert(step(m, input, before, j) is Some);
        assert(0 <= j < edges_of(m, before.state).len());
        assert(0 <= before.state < m.graph.len());
        let label = edges_of(m, before.state)[j].0;
        assert(label == m.graph[before.state][j].0);
        assert(numbered_label(m.graph[before.state][j].0, lo, hi));
        let earlier = opened(m, input, c, path.drop_last());
        assert forall|k: u32| opened(m, input, c, path).contains(k) implies lo <= k < hi by {
            if !earlier.contains(k) {
                assert(label == Label::GroupStart(k));
            }
        }
    } else {
        assert(opened(m, input, c, path) =~= Set::<u32>::empty());
    }
}

/// The spans of a match belong to groups of the automaton.
pub proof fn lemma_machine_groups(m: Machine, input: Seq<char>, start: int, lo: int, hi: int)
    requires
        numbered_within(m.graph, lo, hi),
        match_at(m, input, start) is Some,
    ensures
        forall|k: u32| match_at(m, input, start)->Some_0.1.contains_key(k) ==> lo <= k < hi,
{
    lemma_match_is_walk(m, input, start);
    let end = match_at(m, input, start)->Some_0;
    let path = choose|path: Seq<int>|
        #[trigger] walk(m, input, origin(m, start), path) == Some(
            Config { state: m.accept, pos: end.0, caps: end.1 },
        ) && end.1.dom() == opened(m, input, origin(m, start), path);
    lemma_opened_numbered(m, input, origin(m, start), path, lo, hi);
    assert forall|k: u32| end.1.contains_key(k) implies lo <= k < hi by {
        assert(end.1.dom().contains(k));
    }
}

/// The automaton of a pattern opens and closes the groups that the
/// pattern declares, and no others.
pub proof fn lemma_automaton_numbered(e: ExprView)
    requires
        declared(e).len() < 0xffff_ffff,
    ensures
        numbered_within(automaton(e).build.graph, 1, 1 + declared(e).len() as int),
{
    let b = empty_build();
    assert(numbered_within(b.graph, 1, 1 + declared(e).len() as int));
    lemma_numbered(e, declared(e), b, 1, 1 + declared(e).len() as int);
}

/// The spans of a match belong to groups of the pattern: where the pattern
/// declares `n` groups, of which a `u32` holds the indices, every group
/// with a span has an index from 1 to `n`.
pub proof fn lemma_match_groups(e: ExprView, flags: ModeFlags, input: Seq<char>, start: int)
    requires
        declared(e).len() < 0xffff_ffff,
        match_at(machine_of(e, flags), input, start) is Some,
    ensures
        forall|k: u32|
            match_at(machine_of(e, flags), input, start)->Some_0.1.contains_key(k) ==> 1 <= k
                <= declared(e).len(),
{
    lemma_automaton_numbered(e);
    lemma_machine_groups(machine_of(e, flags), input, start, 1, 1 + declared(e).len() as int);
}

} // verus!
