//! What building a piece does to the table: it adds states and gives edges
//! to the states that it adds, and leaves the rest of the table alone.

use crate::ast::{ExprView, Quantifier};
use crate::groups::{Names, declared, declared_upto};
use crate::thompson::{
    Build, Graph, Label, Piece, at_least, between, branches, chain, exact, graph_closed, grouped,
    joined, looped, optional_copies, pair, repeat, thompson, with_edge, with_state,
};
use vstd::prelude::*;

verus! {

/// `label` is a backreference.
pub open spec fn is_backref(label: Label) -> bool {
    label is Backref || label is BackrefRelative
}

/// `e` holds no backreference that becomes an edge.
pub open spec fn no_backrefs(e: ExprView) -> bool
    decreases e, 0nat,
{
    match e {
        ExprView::Backreference(_) => false,
        ExprView::RelativeBackreference(_) => false,
        ExprView::NamedBackreference(_) => false,
        ExprView::Sequence(es) => no_backrefs_upto(es, es.len()),
        ExprView::Alternation(es) => no_backrefs_upto(es, es.len()),
        ExprView::Quantified { expr, quantifier } => no_backrefs(*expr),
        ExprView::Group(inner) => no_backrefs(*inner),
        ExprView::NonCapturingGroup(inner) => no_backrefs(*inner),
        ExprView::NamedGroup { name, pattern } => no_backrefs(*pattern),
        ExprView::AtomicGroup(inner) => no_backrefs(*inner),
        _ => true,
    }
}

/// None of the first `n` expressions of `es` holds such a backreference.
pub open spec fn no_backrefs_upto(es: Seq<ExprView>, n: nat) -> bool
    decreases es, n,
{
    if n == 0 || n > es.len() {
        true
    } else {
        no_backrefs_upto(es, (n - 1) as nat) && no_backrefs(es[n - 1])
    }
}

/// `after` is `before` with more states and with edges for the new states
/// only: the states of `before` have the edges that they had, every edge
/// of a new state leads to a new state, and if `clean`, no edge of a new
/// state is a backreference.
pub open spec fn extends(before: Graph, after: Graph, clean: bool) -> bool {
    &&& before.len() <= after.len()
    &&& forall|s: int| 0 <= s < before.len() ==> #[trigger] after[s] == before[s]
    &&& graph_closed(before) ==> graph_closed(after)
    &&& forall|s: int, j: int|
        before.len() <= s < after.len() && 0 <= j < after[s].len() ==> before.len() <= (
        #[trigger] after[s][j]).1 < after.len()
    &&& clean ==> forall|s: int, j: int|
        before.len() <= s < after.len() && 0 <= j < after[s].len() ==> !is_backref(
            (#[trigger] after[s][j]).0,
        )
}

/// The piece `p` was built on `b`: the table grew as [`extends`] says, the
/// entry and the exit of the piece are new states, and `groups` groups got
/// their indices.
pub open spec fn built_on(b: Build, p: Piece, groups: nat, clean: bool) -> bool {
    &&& extends(b.graph, p.build.graph, clean)
    &&& b.graph.len() <= p.start < p.build.graph.len()
    &&& b.graph.len() <= p.accept < p.build.graph.len()
    &&& p.build.next_group == b.next_group + groups
}

proof fn lemma_extends_chain(a: Graph, b: Graph, c: Graph, clean: bool)
    requires
        extends(a, b, clean),
        extends(b, c, clean),
    ensures
        extends(a, c, clean),
{
    assert forall|s: int| 0 <= s < a.len() implies #[trigger] c[s] == a[s] by {
        assert(b[s] == a[s]);
    }
    assert forall|s: int, j: int| a.len() <= s < c.len() && 0 <= j < c[s].len() implies a.len() <= (
    #[trigger] c[s][j]).1 < c.len() by {
        if s < b.len() {
            assert(c[s] == b[s]);
            assert(a.len() <= b[s][j].1 < b.len());
        }
    }
    if clean {
        assert forall|s: int, j: int| a.len() <= s < c.len() && 0 <= j < c[s].len() implies !is_backref(
            (#[trigger] c[s][j]).0,
        ) by {
            if s < b.len() {
                assert(c[s] == b[s]);
                assert(!is_backref(b[s][j].0));
            }
        }
    }
}

proof fn lemma_extends_state(base: Graph, g: Graph, clean: bool)
    requires
        extends(base, g, clean),
    ensures
        extends(base, with_state(g), clean),
{
    let h = with_state(g);
    assert forall|s: int| 0 <= s < base.len() implies #[trigger] h[s] == base[s] by {
        assert(g[s] == base[s]);
    }
    assert forall|s: int, j: int| base.len() <= s < h.len() && 0 <= j < h[s].len() implies base.len()
        <= (#[trigger] h[s][j]).1 < h.len() by {
        if s < g.len() {
            assert(h[s] == g[s]);
            assert(base.len() <= g[s][j].1 < g.len());
        }
    }
    if graph_closed(base) {
        assert forall|i: int, j: int| 0 <= i < h.len() && 0 <= j < h[i].len() implies 0 <= (
        #[trigger] h[i][j]).1 < h.len() by {
            if i < g.len() {
                assert(h[i] == g[i]);
                assert(0 <= g[i][j].1 < g.len());
            }
        }
    }
    if clean {
        assert forall|s: int, j: int| base.len() <= s < h.len() && 0 <= j < h[s].len() implies !is_backref(
            (#[trigger] h[s][j]).0,
        ) by {
            if s < g.len() {
                assert(h[s] == g[s]);
                assert(!is_backref(g[s][j].0));
            }
        }
    }
}

proof fn lemma_extends_edge(base: Graph, g: Graph, from: int, label: Label, to: int, clean: bool)
    requires
        extends(base, g, clean),
        base.len() <= from < g.len(),
        base.len() <= to < g.len(),
        clean ==> !is_backref(label),
    ensures
        extends(base, with_edge(g, from, label, to), clean),
        with_edge(g, from, label, to).len() == g.len(),
{
    let h = with_edge(g, from, label, to);
    assert forall|s: int| 0 <= s < base.len() implies #[trigger] h[s] == base[s] by {
        assert(g[s] == base[s]);
    }
    assert forall|s: int, j: int| base.len() <= s < h.len() && 0 <= j < h[s].len() implies base.len()
        <= (#[trigger] h[s][j]).1 < h.len() by {
        if s != from {
            assert(h[s] == g[s]);
            assert(base.len() <= g[s][j].1 < g.len());
        } else if j < g[s].len() {
            assert(h[s][j] == g[s][j]);
            assert(base.len() <= g[s][j].1 < g.len());
        }
    }
    if graph_closed(base) {
        assert forall|i: int, j: int| 0 <= i < h.len() && 0 <= j < h[i].len() implies 0 <= (
        #[trigger] h[i][j]).1 < h.len() by {
            if i != from {
                assert(h[i] == g[i]);
                assert(0 <= g[i][j].1 < g.len());
            } else if j < g[i].len() {
                assert(h[i][j] == g[i][j]);
                assert(0 <= g[i][j].1 < g.len());
            }
        }
    }
    if clean {
        assert forall|s: int, j: int| base.len() <= s < h.len() && 0 <= j < h[s].len() implies !is_backref(
            (#[trigger] h[s][j]).0,
        ) by {
            if s != from {
                assert(h[s] == g[s]);
                assert(!is_backref(g[s][j].0));
            } else if j < g[s].len() {
                assert(h[s][j] == g[s][j]);
                assert(!is_backref(g[s][j].0));
            }
        }
    }
}

proof fn lemma_extends_self(g: Graph, clean: bool)
    ensures
        extends(g, g, clean),
{
}

proof fn lemma_pair(b: Build, label: Label, clean: bool)
    requires
        clean ==> !is_backref(label),
    ensures
        built_on(b, pair(b, label), 0, clean),
{
    let g0 = b.graph;
    lemma_extends_self(g0, clean);
    lemma_extends_state(g0, g0, clean);
    let g1 = with_state(g0);
    lemma_extends_state(g0, g1, clean);
    let g2 = with_state(g1);
    lemma_extends_edge(g0, g2, g0.len() as int, label, g0.len() as int + 1, clean);
}

proof fn lemma_joined(b: Build, p: Piece, c: Piece, groups: nat, more: nat, clean: bool)
    requires
        built_on(b, p, groups, clean),
        built_on(p.build, c, more, clean),
    ensures
        built_on(b, joined(p, c), groups + more, clean),
{
    lemma_extends_chain(b.graph, p.build.graph, c.build.graph, clean);
    lemma_extends_edge(b.graph, c.build.graph, p.accept, Label::Epsilon, c.start, clean);
}

pub proof fn lemma_looped(b: Build, p: Piece, q: Quantifier, groups: nat, clean: bool)
    requires
        built_on(b, p, groups, clean),
    ensures
        built_on(b, looped(p, q), groups, clean),
{
    let base = b.graph;
    let s = p.build.graph.len() as int;
    let a = s + 1;
    let e = Label::Epsilon;
    lemma_extends_state(base, p.build.graph, clean);
    let g1 = with_state(p.build.graph);
    lemma_extends_state(base, g1, clean);
    let g = with_state(g1);
    match q {
        Quantifier::ZeroOrMore => {
            lemma_extends_edge(base, g, s, e, p.start, clean);
            let h1 = with_edge(g, s, e, p.start);
            lemma_extends_edge(base, h1, s, e, a, clean);
            let h2 = with_edge(h1, s, e, a);
            lemma_extends_edge(base, h2, p.accept, e, p.start, clean);
            let h3 = with_edge(h2, p.accept, e, p.start);
            lemma_extends_edge(base, h3, p.accept, e, a, clean);
        },
        Quantifier::ZeroOrMoreLazy => {
            lemma_extends_edge(base, g, s, e, a, clean);
            let h1 = with_edge(g, s, e, a);
            lemma_extends_edge(base, h1, s, e, p.start, clean);
            let h2 = with_edge(h1, s, e, p.start);
            lemma_extends_edge(base, h2, p.accept, e, a, clean);
            let h3 = with_edge(h2, p.accept, e, a);
            lemma_extends_edge(base, h3, p.accept, e, p.start, clean);
        },
        Quantifier::OneOrMore => {
            lemma_extends_edge(base, g, s, e, p.start, clean);
            let h1 = with_edge(g, s, e, p.start);
            lemma_extends_edge(base, h1, p.accept, e, p.start, clean);
            let h2 = with_edge(h1, p.accept, e, p.start);
            lemma_extends_edge(base, h2, p.accept, e, a, clean);
        },
        Quantifier::OneOrMoreLazy => {
            lemma_extends_edge(base, g, s, e, p.start, clean);
            let h1 = with_edge(g, s, e, p.start);
            lemma_extends_edge(base, h1, p.accept, e, a, clean);
            let h2 = with_edge(h1, p.accept, e, a);
            lemma_extends_edge(base, h2, p.accept, e, p.start, clean);
        },
        _ => {
            lemma_extends_edge(base, g, s, e, p.start, clean);
            let h1 = with_edge(g, s, e, p.start);
            lemma_extends_edge(base, h1, s, e, a, clean);
            let h2 = with_edge(h1, s, e, a);
            lemma_extends_edge(base, h2, p.accept, e, a, clean);
        },
    }
}

/// A piece is built on the table that it is added to: it leaves the states
/// of the table alone, its entry and its exit are new states, its edges
/// lead to states, it numbers the groups that its expression declares, and
/// it holds a backreference only if its expression does.
pub proof fn lemma_thompson(e: ExprView, names: Names, b: Build)
    ensures
        built_on(b, thompson(e, names, b), declared(e).len(), no_backrefs(e)),
    decreases e, 0nat, 0nat,
{
    let clean = no_backrefs(e);
    match e {
        ExprView::Empty => lemma_pair(b, Label::Epsilon, clean),
        ExprView::Literal(c) => lemma_pair(b, Label::Char(c), clean),
        ExprView::Any => lemma_pair(b, Label::Any, clean),
        ExprView::Sequence(es) => {
            if es.len() == 0 {
                lemma_pair(b, Label::Epsilon, clean);
                assert(declared_upto(es, 0).len() == 0);
            } else {
                lemma_chain(es, names, b, es.len());
            }
        },
        ExprView::Alternation(es) => {
            if es.len() == 0 {
                lemma_pair(b, Label::Epsilon, clean);
                assert(declared_upto(es, 0).len() == 0);
            } else if es.len() == 1 {
                lemma_thompson(es[0], names, b);
                assert(declared_upto(es, 0) =~= Names::empty());
                assert(declared_upto(es, 1) =~= declared_upto(es, 0) + declared(es[0]));
                assert(declared_upto(es, 1) =~= declared(es[0]));
                assert(no_backrefs_upto(es, 0));
                assert(no_backrefs_upto(es, 1) == no_backrefs(es[0]));
            } else {
                let s = b.graph.len() as int;
                lemma_extends_self(b.graph, true);
                lemma_extends_state(b.graph, b.graph, true);
                lemma_extends_state(b.graph, with_state(b.graph), true);
                let around = Build {
                    graph: with_state(with_state(b.graph)),
                    next_group: b.next_group,
                };
                lemma_branches(es, names, b.graph, around, s, s + 1, es.len());
            }
        },
        ExprView::CharacterClass(cc) => lemma_pair(
            b,
            Label::Class { negated: cc.negated, items: cc.items },
            clean,
        ),
        ExprView::Quantified { expr, quantifier } => match quantifier {
            Quantifier::Exactly(n) => lemma_exact(*expr, names, b, n as nat),
            Quantifier::AtLeast(n) => lemma_at_least(*expr, names, b, n as nat, false),
            Quantifier::AtLeastLazy(n) => lemma_at_least(*expr, names, b, n as nat, true),
            Quantifier::Between(n, m) => lemma_between(*expr, names, b, n as nat, m as nat, false),
            Quantifier::BetweenLazy(n, m) => lemma_between(*expr, names, b, n as nat, m as nat, true),
            q => {
                lemma_thompson(*expr, names, b);
                lemma_looped(b, thompson(*expr, names, b), q, declared(*expr).len(), clean);
            },
        },
        ExprView::Group(inner) => {
            lemma_grouped(*inner, names, b);
            assert(declared(e) =~= seq![None::<Seq<char>>] + declared(*inner));
        },
        ExprView::NamedGroup { name, pattern } => {
            lemma_grouped(*pattern, names, b);
            assert(declared(e) =~= seq![Some(name)] + declared(*pattern));
        },
        ExprView::NonCapturingGroup(inner) => lemma_thompson(*inner, names, b),
        ExprView::AtomicGroup(inner) => lemma_thompson(*inner, names, b),
        ExprView::StartAnchor => lemma_pair(b, Label::StartAnchor, clean),
        ExprView::EndAnchor => lemma_pair(b, Label::EndAnchor, clean),
        ExprView::Backreference(n) => lemma_pair(b, Label::Backref(n), clean),
        ExprView::RelativeBackreference(n) => lemma_pair(b, Label::BackrefRelative(n), clean),
        ExprView::NamedBackreference(name) => lemma_pair(
            b,
            Label::Backref(crate::thompson::named_target(names, name)),
            clean,
        ),
        ExprView::Shorthand(c) => lemma_pair(b, crate::thompson::shorthand_label(c), clean),
        ExprView::WordBoundary => lemma_pair(b, Label::WordBoundary, clean),
        ExprView::NonWordBoundary => lemma_pair(b, Label::NonWordBoundary, clean),
        ExprView::Lookahead(_) => lemma_pair(b, Label::Epsilon, clean),
        ExprView::NegativeLookahead(_) => lemma_pair(b, Label::Epsilon, clean),
        ExprView::Lookbehind(_) => lemma_pair(b, Label::Epsilon, clean),
        ExprView::NegativeLookbehind(_) => lemma_pair(b, Label::Epsilon, clean),
        ExprView::ConditionalGroup(_) => lemma_pair(b, Label::Epsilon, clean),
    }
}

proof fn lemma_grouped(inner: ExprView, names: Names, b: Build)
    ensures
        built_on(b, grouped(inner, names, b), declared(inner).len() + 1, no_backrefs(inner)),
    decreases inner, 1nat, 0nat,
{
    let clean = no_backrefs(inner);
    let id = b.next_group as u32;
    let start = b.graph.len() as int;
    lemma_extends_self(b.graph, clean);
    lemma_extends_state(b.graph, b.graph, clean);
    let first = Build { graph: with_state(b.graph), next_group: b.next_group + 1 };
    lemma_thompson(inner, names, first);
    let p = thompson(inner, names, first);
    lemma_extends_chain(b.graph, first.graph, p.build.graph, clean);
    let accept = p.build.graph.len() as int;
    lemma_extends_state(b.graph, p.build.graph, clean);
    let g = with_state(p.build.graph);
    assert(g[start] == b.graph.push(Seq::empty())[start]) by {
        assert(p.build.graph[start] == first.graph[start]);
    }
    lemma_extends_edge(b.graph, g, start, Label::GroupStart(id), p.start, clean);
    let h = with_edge(g, start, Label::GroupStart(id), p.start);
    lemma_extends_edge(b.graph, h, p.accept, Label::GroupEnd(id), accept, clean);
}

proof fn lemma_chain(es: Seq<ExprView>, names: Names, b: Build, k: nat)
    requires
        1 <= k <= es.len(),
    ensures
        built_on(b, chain(es, names, b, k), declared_upto(es, k).len(), no_backrefs_upto(es, k)),
    decreases es, 0nat, k,
{
    assert(declared_upto(es, 0) =~= Names::empty());
    assert(no_backrefs_upto(es, 0));
    if k == 1 {
        lemma_thompson(es[0], names, b);
        assert(declared_upto(es, 1) =~= declared_upto(es, 0) + declared(es[0]));
        assert(no_backrefs_upto(es, 1) == no_backrefs(es[0]));
    } else {
        lemma_chain(es, names, b, (k - 1) as nat);
        let p = chain(es, names, b, (k - 1) as nat);
        lemma_thompson(es[k - 1], names, p.build);
        let c = thompson(es[k - 1], names, p.build);
        let clean = no_backrefs_upto(es, k);
        if clean {
            lemma_joined(
                b,
                p,
                c,
                declared_upto(es, (k - 1) as nat).len(),
                declared(es[k - 1]).len(),
                true,
            );
        } else {
            lemma_weaken(b, p, declared_upto(es, (k - 1) as nat).len(), no_backrefs_upto(es, (k - 1) as nat));
            lemma_weaken(p.build, c, declared(es[k - 1]).len(), no_backrefs(es[k - 1]));
            lemma_joined(
                b,
                p,
                c,
                declared_upto(es, (k - 1) as nat).len(),
                declared(es[k - 1]).len(),
                false,
            );
        }
        assert(declared_upto(es, k) =~= declared_upto(es, (k - 1) as nat) + declared(es[k - 1]));
    }
}

proof fn lemma_weaken(b: Build, p: Piece, groups: nat, clean: bool)
    requires
        built_on(b, p, groups, clean),
    ensures
        built_on(b, p, groups, false),
{
}

proof fn lemma_branches(
    es: Seq<ExprView>,
    names: Names,
    base: Graph,
    around: Build,
    start: int,
    accept: int,
    k: nat,
)
    requires
        k <= es.len(),
        extends(base, around.graph, true),
        base.len() <= start < around.graph.len(),
        base.len() <= accept < around.graph.len(),
    ensures
        extends(
            base,
            branches(es, names, around, start, accept, k).graph,
            no_backrefs_upto(es, k),
        ),
        around.graph.len() <= branches(es, names, around, start, accept, k).graph.len(),
        branches(es, names, around, start, accept, k).next_group == around.next_group
            + declared_upto(es, k).len(),
    decreases es, 0nat, k,
{
    assert(declared_upto(es, 0) =~= Names::empty());
    if k > 0 {
        let clean = no_backrefs_upto(es, k);
        lemma_branches(es, names, base, around, start, accept, (k - 1) as nat);
        let prev = branches(es, names, around, start, accept, (k - 1) as nat);
        lemma_thompson(es[k - 1], names, prev);
        let c = thompson(es[k - 1], names, prev);
        assert(extends(base, prev.graph, clean));
        assert(extends(prev.graph, c.build.graph, clean));
        lemma_extends_chain(base, prev.graph, c.build.graph, clean);
        lemma_extends_edge(base, c.build.graph, start, Label::Epsilon, c.start, clean);
        let h = with_edge(c.build.graph, start, Label::Epsilon, c.start);
        lemma_extends_edge(base, h, c.accept, Label::Epsilon, accept, clean);
        assert(declared_upto(es, k) =~= declared_upto(es, (k - 1) as nat) + declared(es[k - 1]));
    }
}

pub proof fn lemma_repeat(e: ExprView, names: Names, b: Build, k: nat)
    ensures
        built_on(b, repeat(e, names, b, k), declared(e).len(), no_backrefs(e)),
    decreases e, 1nat, k,
{
    let clean = no_backrefs(e);
    if k <= 1 {
        lemma_thompson(e, names, b);
    } else {
        lemma_repeat(e, names, b, (k - 1) as nat);
        let p = repeat(e, names, b, (k - 1) as nat);
        let again = Build { graph: p.build.graph, next_group: b.next_group };
        lemma_thompson(e, names, again);
        let c = thompson(e, names, again);
        lemma_extends_chain(b.graph, p.build.graph, c.build.graph, clean);
        lemma_extends_edge(b.graph, c.build.graph, p.accept, Label::Epsilon, c.start, clean);
    }
}

pub proof fn lemma_exact(e: ExprView, names: Names, b: Build, n: nat)
    ensures
        built_on(b, exact(e, names, b, n), declared(e).len(), no_backrefs(e)),
    decreases e, 2nat, 0nat,
{
    if n == 0 {
        let moved = Build { graph: b.graph, next_group: b.next_group + declared(e).len() };
        lemma_pair(moved, Label::Epsilon, no_backrefs(e));
    } else {
        lemma_repeat(e, names, b, n);
    }
}

proof fn lemma_at_least(e: ExprView, names: Names, b: Build, n: nat, lazy: bool)
    ensures
        built_on(b, at_least(e, names, b, n, lazy), declared(e).len(), no_backrefs(e)),
    decreases e, 3nat, 0nat,
{
    let clean = no_backrefs(e);
    lemma_exact(e, names, b, n);
    let head = exact(e, names, b, n);
    let again = Build { graph: head.build.graph, next_group: b.next_group };
    lemma_thompson(e, names, again);
    let inner = thompson(e, names, again);
    let q = if lazy {
        Quantifier::ZeroOrMoreLazy
    } else {
        Quantifier::ZeroOrMore
    };
    lemma_looped(again, inner, q, declared(e).len(), clean);
    let tail = looped(inner, q);
    lemma_extends_chain(b.graph, head.build.graph, tail.build.graph, clean);
    lemma_extends_edge(b.graph, tail.build.graph, head.accept, Label::Epsilon, tail.start, clean);
}

pub proof fn lemma_optional_copies(
    e: ExprView,
    names: Names,
    base: Graph,
    graph: Graph,
    first_group: int,
    lazy: bool,
    exit: int,
    prev: int,
    k: nat,
)
    requires
        extends(base, graph, no_backrefs(e)),
        base.len() <= exit < graph.len(),
        base.len() <= prev < graph.len(),
    ensures
        extends(
            base,
            optional_copies(e, names, graph, first_group, lazy, exit, prev, k).0,
            no_backrefs(e),
        ),
        graph.len() <= optional_copies(e, names, graph, first_group, lazy, exit, prev, k).0.len(),
        base.len() <= optional_copies(e, names, graph, first_group, lazy, exit, prev, k).1
            < optional_copies(e, names, graph, first_group, lazy, exit, prev, k).0.len(),
    decreases e, 1nat, k,
{
    let clean = no_backrefs(e);
    if k > 0 {
        lemma_optional_copies(e, names, base, graph, first_group, lazy, exit, prev, (k - 1) as nat);
        let (g, last) = optional_copies(
            e,
            names,
            graph,
            first_group,
            lazy,
            exit,
            prev,
            (k - 1) as nat,
        );
        let again = Build { graph: g, next_group: first_group };
        lemma_thompson(e, names, again);
        let c = thompson(e, names, again);
        lemma_extends_chain(base, g, c.build.graph, clean);
        if lazy {
            lemma_extends_edge(base, c.build.graph, last, Label::Epsilon, exit, clean);
            let h = with_edge(c.build.graph, last, Label::Epsilon, exit);
            lemma_extends_edge(base, h, last, Label::Epsilon, c.start, clean);
        } else {
            lemma_extends_edge(base, c.build.graph, last, Label::Epsilon, c.start, clean);
            let h = with_edge(c.build.graph, last, Label::Epsilon, c.start);
            lemma_extends_edge(base, h, last, Label::Epsilon, exit, clean);
        }
    }
}

proof fn lemma_between(e: ExprView, names: Names, b: Build, n: nat, m: nat, lazy: bool)
    ensures
        built_on(b, between(e, names, b, n, m, lazy), declared(e).len(), no_backrefs(e)),
    decreases e, 3nat, 0nat,
{
    let clean = no_backrefs(e);
    lemma_exact(e, names, b, n);
    if m > n {
        let head = exact(e, names, b, n);
        let s = head.build.graph.len() as int;
        let a = s + 1;
        lemma_extends_state(b.graph, head.build.graph, clean);
        let g1 = with_state(head.build.graph);
        lemma_extends_state(b.graph, g1, clean);
        let g2 = with_state(g1);
        lemma_extends_edge(b.graph, g2, s, Label::Epsilon, head.start, clean);
        let g = with_edge(g2, s, Label::Epsilon, head.start);
        lemma_optional_copies(
            e,
            names,
            b.graph,
            g,
            b.next_group,
            lazy,
            a,
            head.accept,
            (m - n) as nat,
        );
        let (copies, last) = optional_copies(
            e,
            names,
            g,
            b.next_group,
            lazy,
            a,
            head.accept,
            (m - n) as nat,
        );
        lemma_extends_edge(b.graph, copies, last, Label::Epsilon, a, clean);
    }
}

} // verus!
