//! A counted range holds every count in it: what `e{k}` matches for a `k`
//! from `n` to `m`, `e{n,m}` matches too.
//!
//! The automaton of `e{n,m}` holds the automaton of `e{k}`: the first `n`
//! copies in the same places, the further copies two states further on,
//! behind the entry and the exit of the range. Every walk through the one is
//! a walk through the other.

use crate::ast::{ExprView, Quantifier};
use crate::complete::{lemma_automaton_plain, lemma_plain_match_complete};
use crate::engine::{ModeFlags, machine_of};
use crate::groups::{Names, declared};
use crate::paths::{Config, lemma_match_is_walk, lemma_walk_on, origin, step, walk};
use crate::pieces::{extends, lemma_exact, lemma_repeat, lemma_thompson, no_backrefs};
use crate::shift::{lemma_shift, moved, shifted};
use crate::simulation::{Machine, crosses, edges_of, match_at};
use crate::thompson::{
    Build, Edge, Graph, Label, Piece, automaton, between, empty_build, exact, graph_closed, joined,
    optional_copies, repeat, thompson, with_edge, with_state,
};
use vstd::prelude::*;

verus! {

/// Where the state `q` of the automaton of a count lies in the automaton
/// of the range: in its place if it lies before `lo`, and as far further on
/// as `hi` is from `lo` if not. The states from `lo` up to `hi` belong to
/// the range alone.
pub open spec fn lifted(q: int, lo: int, hi: int) -> int {
    if q < lo {
        q
    } else {
        q + (hi - lo)
    }
}

/// The edge `j` of the state `q` of `a` is an edge of `b`, between the
/// states that [`lifted`] gives.
pub open spec fn placed(a: Graph, b: Graph, lo: int, hi: int, q: int, j: int) -> bool {
    0 <= lifted(q, lo, hi) < b.len() && b[lifted(q, lo, hi)].contains(
        (a[q][j].0, lifted(a[q][j].1, lo, hi)),
    )
}

/// Every edge of `a` is an edge of `b`, between the states that [`lifted`]
/// gives.
#[verifier::opaque]
pub open spec fn embeds(a: Graph, b: Graph, lo: int, hi: int) -> bool {
    forall|q: int, j: int|
        0 <= q < a.len() && 0 <= j < a[q].len() ==> #[trigger] placed(a, b, lo, hi, q, j)
}

/// Every edge of `a` is an edge of `b`, between the same states.
#[verifier::opaque]
pub open spec fn contained(a: Graph, b: Graph) -> bool {
    &&& a.len() <= b.len()
    &&& forall|q: int, x: Edge| 0 <= q < a.len() && #[trigger] a[q].contains(x) ==> b[q].contains(x)
}

pub proof fn lemma_embeds_at(a: Graph, b: Graph, lo: int, hi: int, q: int, j: int)
    requires
        embeds(a, b, lo, hi),
        0 <= q < a.len(),
        0 <= j < a[q].len(),
    ensures
        0 <= lifted(q, lo, hi) < b.len(),
        b[lifted(q, lo, hi)].contains((a[q][j].0, lifted(a[q][j].1, lo, hi))),
{
    reveal(embeds);
    assert(placed(a, b, lo, hi, q, j));
}

pub proof fn lemma_embeds_from(a: Graph, b: Graph, lo: int, hi: int)
    requires
        forall|q: int, j: int|
            0 <= q < a.len() && 0 <= j < a[q].len() ==> #[trigger] placed(a, b, lo, hi, q, j),
    ensures
        embeds(a, b, lo, hi),
{
    reveal(embeds);
}

pub proof fn lemma_contained_at(a: Graph, b: Graph, q: int, x: Edge)
    requires
        contained(a, b),
        0 <= q < a.len(),
        a[q].contains(x),
    ensures
        q < b.len(),
        b[q].contains(x),
{
    reveal(contained);
}

pub proof fn lemma_contained_len(a: Graph, b: Graph)
    requires
        contained(a, b),
    ensures
        a.len() <= b.len(),
{
    reveal(contained);
}

pub proof fn lemma_contained_from(a: Graph, b: Graph)
    requires
        a.len() <= b.len(),
        forall|q: int, x: Edge| 0 <= q < a.len() && #[trigger] a[q].contains(x) ==> b[q].contains(x),
    ensures
        contained(a, b),
{
    reveal(contained);
}

/// A walk that goes on along a second path.
pub proof fn lemma_walk_concat(m: Machine, input: Seq<char>, c: Config, first: Seq<int>, second: Seq<int>)
    ensures
        walk(m, input, c, first + second) == match walk(m, input, c, first) {
            Some(mid) => walk(m, input, mid, second),
            None => None,
        },
    decreases second.len(),
{
    if second.len() == 0 {
        assert(first + second =~= first);
    } else {
        lemma_walk_concat(m, input, c, first, second.drop_last());
        assert((first + second).drop_last() =~= first + second.drop_last());
        assert((first + second).last() == second.last());
    }
}

pub proof fn lemma_contains_pushed(s: Seq<Edge>, e: Edge, x: Edge)
    ensures
        s.push(e).contains(e),
        s.contains(x) ==> s.push(e).contains(x),
{
    let longer = s.push(e);
    assert(longer[s.len() as int] == e);
    if s.contains(x) {
        let i = choose|i: int| 0 <= i < s.len() && s[i] == x;
        assert(longer[i] == x);
    }
}

pub proof fn lemma_contained_edge(g: Graph, from: int, label: Label, to: int)
    ensures
        contained(g, with_edge(g, from, label, to)),
        0 <= from < g.len() ==> with_edge(g, from, label, to)[from].contains((label, to)),
{
    let h = with_edge(g, from, label, to);
    assert forall|q: int, x: Edge| 0 <= q < g.len() && #[trigger] g[q].contains(x) implies h[q].contains(
        x,
    ) by {
        if q == from {
            lemma_contains_pushed(g[q], (label, to), x);
        }
    }
    lemma_contained_from(g, h);
    if 0 <= from < g.len() {
        lemma_contains_pushed(g[from], (label, to), (label, to));
    }
}

pub proof fn lemma_contained_self(g: Graph)
    ensures
        contained(g, g),
{
    lemma_contained_from(g, g);
}

pub proof fn lemma_contained_chain(a: Graph, b: Graph, c: Graph)
    requires
        contained(a, b),
        contained(b, c),
    ensures
        contained(a, c),
{
    lemma_contained_len(a, b);
    lemma_contained_len(b, c);
    assert forall|q: int, x: Edge| 0 <= q < a.len() && #[trigger] a[q].contains(x) implies c[q].contains(
        x,
    ) by {
        lemma_contained_at(a, b, q, x);
        lemma_contained_at(b, c, q, x);
    }
    lemma_contained_from(a, c);
}

pub proof fn lemma_contained_extends(a: Graph, b: Graph)
    requires
        extends(a, b, false),
    ensures
        contained(a, b),
{
    assert forall|q: int, x: Edge| 0 <= q < a.len() && #[trigger] a[q].contains(x) implies b[q].contains(
        x,
    ) by {
        assert(b[q] == a[q]);
    }
    lemma_contained_from(a, b);
}

pub proof fn lemma_embeds_contained(a: Graph, b: Graph, c: Graph, lo: int, hi: int)
    requires
        embeds(a, b, lo, hi),
        contained(b, c),
    ensures
        embeds(a, c, lo, hi),
{
    lemma_contained_len(b, c);
    assert forall|q: int, k: int| 0 <= q < a.len() && 0 <= k < a[q].len() implies #[trigger] placed(
        a,
        c,
        lo,
        hi,
        q,
        k,
    ) by {
        lemma_embeds_at(a, b, lo, hi, q, k);
        lemma_contained_at(b, c, lifted(q, lo, hi), (a[q][k].0, lifted(a[q][k].1, lo, hi)));
    }
    lemma_embeds_from(a, c, lo, hi);
}

/// A walk through an automaton is a walk through every automaton that
/// holds it, between the states that [`lifted`] gives.
pub proof fn lemma_walk_lifted(
    a: Machine,
    b: Machine,
    lo: int,
    hi: int,
    input: Seq<char>,
    c: Config,
    path: Seq<int>,
)
    requires
        embeds(a.graph, b.graph, lo, hi),
        graph_closed(a.graph),
        0 <= c.state < a.graph.len(),
        a.names == b.names,
        a.flags == b.flags,
        walk(a, input, c, path) is Some,
    ensures
        0 <= walk(a, input, c, path)->Some_0.state < a.graph.len(),
        exists|other: Seq<int>| #[trigger]
            walk(b, input, Config { state: lifted(c.state, lo, hi), pos: c.pos, caps: c.caps }, other)
                == Some(
                Config {
                    state: lifted(walk(a, input, c, path)->Some_0.state, lo, hi),
                    pos: walk(a, input, c, path)->Some_0.pos,
                    caps: walk(a, input, c, path)->Some_0.caps,
                },
            ),
    decreases path.len(),
{
    let from = Config { state: lifted(c.state, lo, hi), pos: c.pos, caps: c.caps };
    if path.len() == 0 {
        assert(walk(b, input, from, Seq::<int>::empty()) == Some(from));
    } else {
        lemma_walk_lifted(a, b, lo, hi, input, c, path.drop_last());
        let before = walk(a, input, c, path.drop_last())->Some_0;
        let end = walk(a, input, c, path)->Some_0;
        let shorter = choose|other: Seq<int>| #[trigger]
            walk(b, input, from, other) == Some(
                Config { state: lifted(before.state, lo, hi), pos: before.pos, caps: before.caps },
            );
        let j = path.last();
        let edge = a.graph[before.state][j];
        let image = (edge.0, lifted(edge.1, lo, hi));
        lemma_embeds_at(a.graph, b.graph, lo, hi, before.state, j);
        assert(b.graph[lifted(before.state, lo, hi)].contains(image));
        let k = choose|k: int|
            0 <= k < b.graph[lifted(before.state, lo, hi)].len() && b.graph[lifted(
                before.state,
                lo,
                hi,
            )][k] == image;
        assert(crosses(a, input, before.pos, edge.0, before.caps) == crosses(
            b,
            input,
            before.pos,
            edge.0,
            before.caps,
        ));
        lemma_walk_on(b, input, from, shorter, k);
        assert(walk(b, input, from, shorter.push(k)) == Some(
            Config { state: lifted(end.state, lo, hi), pos: end.pos, caps: end.caps },
        ));
    }
}

/// The first `n` copies of a range, with the entry and the exit of the
/// range behind them and the edge from the entry into the first copy.
pub open spec fn range_base(e: ExprView, names: Names, n: nat) -> Graph {
    let head = exact(e, names, empty_build(), n);
    with_edge(
        with_state(with_state(head.build.graph)),
        head.build.graph.len() as int,
        Label::Epsilon,
        head.start,
    )
}

/// The table of a range with `j` optional copies, and the exit of the last
/// copy.
pub open spec fn range_stage(e: ExprView, names: Names, n: nat, lazy: bool, j: nat) -> (Graph, int) {
    let head = exact(e, names, empty_build(), n);
    optional_copies(
        e,
        names,
        range_base(e, names, n),
        empty_build().next_group,
        lazy,
        head.build.graph.len() as int + 1,
        head.accept,
        j,
    )
}

/// The automaton of `n + j` copies lies in the table of the range with `j`
/// optional copies, and the exit of every count so far has an edge to the
/// exit of the range or is the exit of the last copy.
proof fn lemma_stage(e: ExprView, names: Names, n: nat, lazy: bool, j: nat)
    requires
        n >= 1,
    ensures
        ({
            let head = exact(e, names, empty_build(), n);
            let cut = head.build.graph.len() as int;
            let count = repeat(e, names, empty_build(), n + j);
            let stage = range_stage(e, names, n, lazy, j);
            &&& embeds(count.build.graph, stage.0, cut, cut + 2)
            &&& stage.0.len() == count.build.graph.len() + 2
            &&& stage.1 == lifted(count.accept, cut, cut + 2)
            &&& cut <= count.build.graph.len()
            &&& 0 <= count.accept < count.build.graph.len()
            &&& count.start == head.start
            &&& graph_closed(count.build.graph)
            &&& contained(range_base(e, names, n), stage.0)
            &&& 0 <= stage.1 < stage.0.len()
            &&& (forall|i: nat|
                i < j ==> contained(#[trigger] range_stage(e, names, n, lazy, i).0, stage.0) && 0
                    <= range_stage(e, names, n, lazy, i).1 < range_stage(e, names, n, lazy, i).0.len()
                    && stage.0[range_stage(e, names, n, lazy, i).1].contains(
                    (Label::Epsilon, cut + 1),
                ))
        }),
    decreases j,
{
    let b0 = empty_build();
    let head = exact(e, names, b0, n);
    let cut = head.build.graph.len() as int;
    let exit = cut + 1;
    let base = range_base(e, names, n);
    lemma_exact(e, names, b0, n);
    assert(graph_closed(b0.graph));
    let count = repeat(e, names, b0, n + j);
    let stage = range_stage(e, names, n, lazy, j);
    lemma_repeat(e, names, b0, n + j);
    if j == 0 {
        assert(count == head);
        assert(stage == (base, head.accept));
        assert forall|q: int, k: int| 0 <= q < head.build.graph.len() && 0 <= k
            < head.build.graph[q].len() implies #[trigger] placed(head.build.graph, base, cut, cut + 2, q, k) by {
            assert(base[q] == head.build.graph[q]);
            assert(0 <= head.build.graph[q][k].1 < cut);
        }
        lemma_embeds_from(head.build.graph, base, cut, cut + 2);
        lemma_contained_self(base);
    } else {
        lemma_stage(e, names, n, lazy, (j - 1) as nat);
        let before = repeat(e, names, b0, (n + j - 1) as nat);
        let earlier = range_stage(e, names, n, lazy, (j - 1) as nat);
        let last = earlier.1;
        let again_a = Build { graph: before.build.graph, next_group: b0.next_group };
        let again_b = Build { graph: earlier.0, next_group: b0.next_group };
        let ca = thompson(e, names, again_a);
        let cb = thompson(e, names, again_b);
        lemma_thompson(e, names, again_a);
        lemma_thompson(e, names, again_b);
        lemma_shift(e, names, again_a, again_b, before.build.graph.len() as int, 2);
        assert(count == joined(before, ca));
        let linked = if lazy {
            with_edge(
                with_edge(cb.build.graph, last, Label::Epsilon, exit),
                last,
                Label::Epsilon,
                cb.start,
            )
        } else {
            with_edge(
                with_edge(cb.build.graph, last, Label::Epsilon, cb.start),
                last,
                Label::Epsilon,
                exit,
            )
        };
        assert(stage == (linked, cb.accept));
        lemma_contained_extends(earlier.0, cb.build.graph);
        lemma_linked(cb.build.graph, last, exit, cb.start, lazy);
        lemma_contained_chain(earlier.0, cb.build.graph, linked);
        lemma_contained_chain(base, earlier.0, linked);
        assert forall|i: nat| i < j implies contained(
            #[trigger] range_stage(e, names, n, lazy, i).0,
            linked,
        ) && 0 <= range_stage(e, names, n, lazy, i).1 < range_stage(e, names, n, lazy, i).0.len()
            && linked[range_stage(e, names, n, lazy, i).1].contains((Label::Epsilon, exit)) by {
            if i < j - 1 {
                let old = range_stage(e, names, n, lazy, i);
                lemma_contained_chain(old.0, earlier.0, linked);
                lemma_contained_len(old.0, earlier.0);
                lemma_contained_at(earlier.0, linked, old.1, (Label::Epsilon, exit));
            }
        }
        lemma_count_embeds(before, ca, earlier.0, cb, linked, cut, cut + 2, last);
    }
}

/// The table behind a new copy, with the two edges from the exit of the
/// copy before: into the new copy and to the exit of the range.
pub proof fn lemma_linked(g: Graph, last: int, exit: int, start: int, lazy: bool)
    requires
        0 <= last < g.len(),
    ensures
        ({
            let linked = if lazy {
                with_edge(with_edge(g, last, Label::Epsilon, exit), last, Label::Epsilon, start)
            } else {
                with_edge(with_edge(g, last, Label::Epsilon, start), last, Label::Epsilon, exit)
            };
            &&& contained(g, linked)
            &&& linked.len() == g.len()
            &&& linked[last].contains((Label::Epsilon, exit))
            &&& linked[last].contains((Label::Epsilon, start))
        }),
{
    if lazy {
        lemma_contained_edge(g, last, Label::Epsilon, exit);
        let mid = with_edge(g, last, Label::Epsilon, exit);
        lemma_contained_edge(mid, last, Label::Epsilon, start);
        let linked = with_edge(mid, last, Label::Epsilon, start);
        lemma_contained_chain(g, mid, linked);
        lemma_contained_at(mid, linked, last, (Label::Epsilon, exit));
    } else {
        lemma_contained_edge(g, last, Label::Epsilon, start);
        let mid = with_edge(g, last, Label::Epsilon, start);
        lemma_contained_edge(mid, last, Label::Epsilon, exit);
        let linked = with_edge(mid, last, Label::Epsilon, exit);
        lemma_contained_chain(g, mid, linked);
        lemma_contained_at(mid, linked, last, (Label::Epsilon, start));
    }
}

/// One more copy keeps the automaton of the count in the table of the
/// range.
pub proof fn lemma_count_embeds(
    before: Piece,
    ca: Piece,
    earlier: Graph,
    cb: Piece,
    linked: Graph,
    lo: int,
    hi: int,
    last: int,
)
    requires
        embeds(before.build.graph, earlier, lo, hi),
        earlier.len() == before.build.graph.len() + (hi - lo),
        0 <= lo <= before.build.graph.len(),
        lo <= hi,
        0 <= before.accept < before.build.graph.len(),
        last == lifted(before.accept, lo, hi),
        extends(before.build.graph, ca.build.graph, false),
        extends(earlier, cb.build.graph, false),
        shifted(ca.build.graph, before.build.graph.len() as int, cb.build.graph, hi - lo),
        cb.start == ca.start + (hi - lo),
        before.build.graph.len() <= ca.start < ca.build.graph.len(),
        contained(cb.build.graph, linked),
        linked.len() == cb.build.graph.len(),
        linked[last].contains((Label::Epsilon, cb.start)),
    ensures
        embeds(joined(before, ca).build.graph, linked, lo, hi),
{
    let g = joined(before, ca).build.graph;
    let old = before.build.graph;
    let d = hi - lo;
    lemma_contained_len(cb.build.graph, linked);
    assert forall|q: int, k: int| 0 <= q < g.len() && 0 <= k < g[q].len() implies #[trigger] placed(
        g,
        linked,
        lo,
        hi,
        q,
        k,
    ) by {
        let x = g[q][k];
        if q < old.len() {
            assert(ca.build.graph[q] == old[q]);
            if q == before.accept && k == old[q].len() {
                assert(x == (Label::Epsilon, ca.start));
                assert(lifted(ca.start, lo, hi) == cb.start);
            } else {
                assert(x == old[q][k]);
                lemma_embeds_at(old, earlier, lo, hi, q, k);
                let image = (x.0, lifted(x.1, lo, hi));
                assert(cb.build.graph[lifted(q, lo, hi)] == earlier[lifted(q, lo, hi)]);
                lemma_contained_at(cb.build.graph, linked, lifted(q, lo, hi), image);
            }
        } else {
            assert(g[q] == ca.build.graph[q]);
            assert(cb.build.graph[q + d] == moved(ca.build.graph[q], d));
            assert(moved(ca.build.graph[q], d)[k] == (x.0, x.1 + d));
            assert(cb.build.graph[q + d].contains((x.0, x.1 + d)));
            assert(old.len() <= x.1);
            lemma_contained_at(cb.build.graph, linked, q + d, (x.0, x.1 + d));
        }
    }
    lemma_embeds_from(g, linked, lo, hi);
}

/// The pattern `e{n,m}`, or `e{n,m}?` if `lazy`.
pub open spec fn range_of(e: ExprView, n: u32, m: u32, lazy: bool) -> ExprView {
    ExprView::Quantified {
        expr: Box::new(e),
        quantifier: if lazy {
            Quantifier::BetweenLazy(n, m)
        } else {
            Quantifier::Between(n, m)
        },
    }
}

/// The pattern `e{k}`.
pub open spec fn count_of(e: ExprView, k: u32) -> ExprView {
    ExprView::Quantified { expr: Box::new(e), quantifier: Quantifier::Exactly(k) }
}

/// A range whose bounds are equal is the count: `e{n,n}` has the automaton
/// of `e{n}`.
pub proof fn lemma_equal_bounds(e: ExprView, flags: ModeFlags, n: u32, lazy: bool)
    ensures
        machine_of(range_of(e, n, n, lazy), flags) == machine_of(count_of(e, n), flags),
{
    let names = declared(e);
    assert(declared(range_of(e, n, n, lazy)) == names);
    assert(declared(count_of(e, n)) == names);
    assert(automaton(range_of(e, n, n, lazy)) == between(
        e,
        names,
        empty_build(),
        n as nat,
        n as nat,
        lazy,
    ));
    assert(automaton(count_of(e, n)) == exact(e, names, empty_build(), n as nat));
}

/// What `e{k}` matches for a `k` from `n` to `m`, `e{n,m}` matches too:
/// for an expression without backreferences and `1 <= n < m`, if `e{k}` has
/// a match at `start`, then `e{n,m}` has a match at `start` that ends there
/// or later.
pub proof fn lemma_range_holds_count(
    e: ExprView,
    flags: ModeFlags,
    n: u32,
    m: u32,
    k: u32,
    lazy: bool,
    input: Seq<char>,
    start: int,
)
    requires
        no_backrefs(e),
        1 <= n < m,
        n <= k <= m,
        0 <= start <= input.len(),
        match_at(machine_of(count_of(e, k), flags), input, start) is Some,
    ensures
        match_at(machine_of(range_of(e, n, m, lazy), flags), input, start) is Some,
        match_at(machine_of(range_of(e, n, m, lazy), flags), input, start)->Some_0.0 >= match_at(
            machine_of(count_of(e, k), flags),
            input,
            start,
        )->Some_0.0,
{
    let names = declared(e);
    let b0 = empty_build();
    let ma = machine_of(count_of(e, k), flags);
    let mb = machine_of(range_of(e, n, m, lazy), flags);
    assert(declared(count_of(e, k)) == names);
    assert(declared(range_of(e, n, m, lazy)) == names);
    let head = exact(e, names, b0, n as nat);
    let cut = head.build.graph.len() as int;
    let exit = cut + 1;
    let count = repeat(e, names, b0, k as nat);
    assert(automaton(count_of(e, k)) == exact(e, names, b0, k as nat));
    assert(automaton(count_of(e, k)) == count);
    assert(automaton(range_of(e, n, m, lazy)) == between(e, names, b0, n as nat, m as nat, lazy));
    let top = range_stage(e, names, n as nat, lazy, (m - n) as nat);
    let mine = range_stage(e, names, n as nat, lazy, (k - n) as nat);
    lemma_stage(e, names, n as nat, lazy, (m - n) as nat);
    lemma_stage(e, names, n as nat, lazy, (k - n) as nat);
    lemma_exact(e, names, b0, n as nat);
    let whole = with_edge(top.0, top.1, Label::Epsilon, exit);
    assert(mb.graph == whole);
    assert(mb.start == cut && mb.accept == exit);
    lemma_contained_edge(top.0, top.1, Label::Epsilon, exit);
    // the automaton of the count lies in the automaton of the range
    if k < m {
        assert(contained(range_stage(e, names, n as nat, lazy, (k - n) as nat).0, top.0));
        lemma_contained_chain(mine.0, top.0, whole);
        lemma_contained_len(mine.0, top.0);
        lemma_contained_at(top.0, whole, mine.1, (Label::Epsilon, exit));
    }
    lemma_embeds_contained(count.build.graph, mine.0, whole, cut, cut + 2);
    assert(whole[lifted(count.accept, cut, cut + 2)].contains((Label::Epsilon, exit)));
    // the edge from the entry of the range into the first copy
    let base = range_base(e, names, n as nat);
    lemma_contained_edge(
        with_state(with_state(head.build.graph)),
        cut,
        Label::Epsilon,
        head.start,
    );
    assert(base[cut].contains((Label::Epsilon, head.start)));
    lemma_contained_chain(base, top.0, whole);
    lemma_contained_at(base, whole, cut, (Label::Epsilon, head.start));
    // the walk of the count, as a walk of the range
    lemma_match_is_walk(ma, input, start);
    let end = match_at(ma, input, start)->Some_0;
    let done = Config { state: ma.accept, pos: end.0, caps: end.1 };
    let path = choose|path: Seq<int>| #[trigger] walk(ma, input, origin(ma, start), path) == Some(done);
    lemma_walk_lifted(ma, mb, cut, cut + 2, input, origin(ma, start), path);
    let entered = Config { state: head.start, pos: start, caps: Map::empty() };
    assert(entered == Config {
        state: lifted(origin(ma, start).state, cut, cut + 2),
        pos: origin(ma, start).pos,
        caps: origin(ma, start).caps,
    });
    let left = Config { state: lifted(ma.accept, cut, cut + 2), pos: end.0, caps: end.1 };
    let middle = choose|other: Seq<int>| #[trigger] walk(mb, input, entered, other) == Some(left);
    let first = choose|i: int| 0 <= i < whole[cut].len() && whole[cut][i] == (Label::Epsilon, head.start);
    let out = whole[lifted(ma.accept, cut, cut + 2)];
    let last = choose|i: int| 0 <= i < out.len() && out[i] == (Label::Epsilon, exit);
    assert(walk(mb, input, origin(mb, start), Seq::<int>::empty()) == Some(origin(mb, start)));
    lemma_walk_on(mb, input, origin(mb, start), Seq::<int>::empty(), first);
    assert(step(mb, input, origin(mb, start), first) == Some(entered));
    let opening = Seq::<int>::empty().push(first);
    lemma_walk_concat(mb, input, origin(mb, start), opening, middle);
    lemma_walk_on(mb, input, origin(mb, start), opening + middle, last);
    assert(step(mb, input, left, last) == Some(Config { state: exit, pos: end.0, caps: end.1 }));
    let full = (opening + middle).push(last);
    assert(walk(mb, input, origin(mb, start), full) == Some(
        Config { state: mb.accept, pos: end.0, caps: end.1 },
    ));
    lemma_automaton_plain(range_of(e, n, m, lazy), flags);
    lemma_plain_match_complete(mb, input, start, full);
}

/// `b` is `a` with more states behind it: the states of `a` have the edges
/// that they had, but for the state `at`, which has them first and then
/// edges to new states; and the edges of the new states lead to new states.
pub open spec fn grown_at(a: Graph, b: Graph, at: int) -> bool {
    &&& a.len() <= b.len()
    &&& 0 <= at < a.len()
    &&& forall|q: int| 0 <= q < a.len() && q != at ==> #[trigger] b[q] == a[q]
    &&& a[at].len() <= b[at].len()
    &&& forall|j: int| 0 <= j < a[at].len() ==> #[trigger] b[at][j] == a[at][j]
    &&& forall|j: int| a[at].len() <= j < b[at].len() ==> a.len() <= (#[trigger] b[at][j]).1
    &&& forall|q: int, j: int|
        a.len() <= q < b.len() && 0 <= j < b[q].len() ==> a.len() <= (#[trigger] b[q][j]).1
}

/// More copies leave the automaton of a count as [`grown_at`] says.
pub proof fn lemma_repeat_grows(e: ExprView, names: Names, k: nat, m: nat)
    requires
        1 <= k < m,
    ensures
        grown_at(
            repeat(e, names, empty_build(), k).build.graph,
            repeat(e, names, empty_build(), m).build.graph,
            repeat(e, names, empty_build(), k).accept,
        ),
        repeat(e, names, empty_build(), m).start == repeat(e, names, empty_build(), k).start,
        repeat(e, names, empty_build(), k).build.graph.len() <= repeat(
            e,
            names,
            empty_build(),
            m,
        ).accept,
    decreases m,
{
    let b0 = empty_build();
    let small = repeat(e, names, b0, k);
    let before = repeat(e, names, b0, (m - 1) as nat);
    let big = repeat(e, names, b0, m);
    lemma_repeat(e, names, b0, k);
    lemma_repeat(e, names, b0, (m - 1) as nat);
    let again = Build { graph: before.build.graph, next_group: b0.next_group };
    lemma_thompson(e, names, again);
    let c = thompson(e, names, again);
    assert(big == joined(before, c));
    let a = small.build.graph;
    let g = big.build.graph;
    let at = small.accept;
    if m - 1 == k {
        assert(before == small);
        assert forall|q: int| 0 <= q < a.len() && q != at implies #[trigger] g[q] == a[q] by {
            assert(c.build.graph[q] == a[q]);
        }
        assert(c.build.graph[at] == a[at]);
        assert(g[at] == a[at].push((Label::Epsilon, c.start)));
        assert forall|q: int, j: int| a.len() <= q < g.len() && 0 <= j < g[q].len() implies a.len() <= (
        #[trigger] g[q][j]).1 by {
            assert(g[q] == c.build.graph[q]);
        }
    } else {
        lemma_repeat_grows(e, names, k, (m - 1) as nat);
        let h = before.build.graph;
        assert forall|q: int| 0 <= q < a.len() && q != at implies #[trigger] g[q] == a[q] by {
            assert(c.build.graph[q] == h[q]);
            assert(h[q] == a[q]);
        }
        assert(c.build.graph[at] == h[at]);
        assert(g[at] == h[at]);
        assert forall|j: int| 0 <= j < a[at].len() implies #[trigger] g[at][j] == a[at][j] by {
            assert(h[at][j] == a[at][j]);
        }
        assert forall|j: int| a[at].len() <= j < g[at].len() implies a.len() <= (#[trigger] g[at][j]).1 by {
            assert(a.len() <= h[at][j].1);
        }
        assert forall|q: int, j: int| a.len() <= q < g.len() && 0 <= j < g[q].len() implies a.len() <= (
        #[trigger] g[q][j]).1 by {
            if q < h.len() {
                assert(c.build.graph[q] == h[q]);
                if q == before.accept && j == h[q].len() {
                    assert(g[q][j] == (Label::Epsilon, c.start));
                } else {
                    assert(g[q][j] == h[q][j]);
                    assert(a.len() <= h[q][j].1);
                }
            } else {
                assert(g[q] == c.build.graph[q]);
                assert(h.len() <= c.build.graph[q][j].1);
            }
        }
    }
}

/// A walk through the larger automaton that ends among the states of the
/// smaller one is a walk through the smaller one.
pub proof fn lemma_walk_within(
    small: Machine,
    big: Machine,
    at: int,
    input: Seq<char>,
    c: Config,
    path: Seq<int>,
)
    requires
        grown_at(small.graph, big.graph, at),
        graph_closed(big.graph),
        small.names == big.names,
        small.flags == big.flags,
        walk(big, input, c, path) is Some,
        0 <= c.state < small.graph.len(),
        0 <= walk(big, input, c, path)->Some_0.state < small.graph.len(),
    ensures
        walk(small, input, c, path) == walk(big, input, c, path),
    decreases path.len(),
{
    if path.len() > 0 {
        let before = walk(big, input, c, path.drop_last())->Some_0;
        let j = path.last();
        lemma_walk_states(big, input, c, path.drop_last());
        let edge = big.graph[before.state][j];
        assert(step(big, input, before, j) is Some);
        if before.state >= small.graph.len() {
            assert(small.graph.len() <= edge.1);
            assert(false);
        }
        lemma_walk_within(small, big, at, input, c, path.drop_last());
        if before.state == at {
            if j >= small.graph[at].len() {
                assert(small.graph.len() <= big.graph[at][j].1);
                assert(false);
            }
            assert(big.graph[at][j] == small.graph[at][j]);
        } else {
            assert(big.graph[before.state] == small.graph[before.state]);
        }
        assert(crosses(small, input, before.pos, edge.0, before.caps) == crosses(
            big,
            input,
            before.pos,
            edge.0,
            before.caps,
        ));
    }
}

/// A walk that goes on from a state is in a state.
pub proof fn lemma_walk_states(m: Machine, input: Seq<char>, c: Config, path: Seq<int>)
    requires
        walk(m, input, c, path) is Some,
        0 <= c.state,
        forall|q: int, j: int|
            0 <= q < m.graph.len() && 0 <= j < m.graph[q].len() ==> 0 <= (#[trigger] m.graph[q][j]).1,
    ensures
        0 <= walk(m, input, c, path)->Some_0.state,
        path.len() > 0 ==> walk(m, input, c, path.drop_last()) is Some && 0 <= walk(
            m,
            input,
            c,
            path.drop_last(),
        )->Some_0.state < m.graph.len() && 0 <= path.last() < m.graph[walk(
            m,
            input,
            c,
            path.drop_last(),
        )->Some_0.state].len(),
    decreases path.len(),
{
    if path.len() > 0 {
        lemma_walk_states(m, input, c, path.drop_last());
        let before = walk(m, input, c, path.drop_last())->Some_0;
        assert(step(m, input, before, path.last()) is Some);
        assert(edges_of(m, before.state).len() > 0);
    }
}

/// Where the state `q` of the automaton of a range lies in the automaton
/// of a count: the inverse of [`lifted`].
pub open spec fn lowered(q: int, lo: int, hi: int) -> int {
    if q < lo {
        q
    } else {
        q - (hi - lo)
    }
}

/// `q` is a state of a copy: none of the states from `lo` up to `hi`,
/// which belong to the range alone.
pub open spec fn inner(q: int, lo: int, hi: int) -> bool {
    0 <= q && (q < lo || q >= hi)
}

/// The state `q` is the exit of one of the counts from `n + from` to
/// `n + upto`.
pub open spec fn is_exit(
    e: ExprView,
    names: Names,
    n: nat,
    lazy: bool,
    from: nat,
    upto: nat,
    q: int,
) -> bool {
    exists|i: nat| from <= i <= upto && (#[trigger] range_stage(e, names, n, lazy, i)).1 == q
}

/// What says which counts a range holds: the automaton of the range and
/// the places of the states that belong to it alone.
pub struct Frame {
    pub lo: int,
    pub hi: int,
    pub e: ExprView,
    pub names: Names,
    pub n: nat,
    pub lazy: bool,
    pub from: nat,
    pub upto: nat,
}

/// The edge `j` of the state `q` of the range `b` leads to the exit of the
/// range, which is the state `hi - 1`, from the exit of a count, or is an
/// edge of the count `a`.
pub open spec fn backed(b: Graph, a: Graph, f: Frame, q: int, j: int) -> bool {
    if b[q][j].1 == f.hi - 1 {
        b[q][j].0 is Epsilon && is_exit(f.e, f.names, f.n, f.lazy, f.from, f.upto, q)
    } else {
        &&& inner(b[q][j].1, f.lo, f.hi)
        &&& 0 <= lowered(q, f.lo, f.hi) < a.len()
        &&& a[lowered(q, f.lo, f.hi)].contains((b[q][j].0, lowered(b[q][j].1, f.lo, f.hi)))
    }
}

/// Every edge of a copy in the range `b` is [`backed`].
#[verifier::opaque]
pub open spec fn covered(b: Graph, a: Graph, f: Frame) -> bool {
    forall|q: int, j: int|
        0 <= q < b.len() && inner(q, f.lo, f.hi) && 0 <= j < b[q].len() ==> #[trigger] backed(
            b,
            a,
            f,
            q,
            j,
        )
}

pub proof fn lemma_covered_at(b: Graph, a: Graph, f: Frame, q: int, j: int)
    requires
        covered(b, a, f),
        0 <= q < b.len(),
        inner(q, f.lo, f.hi),
        0 <= j < b[q].len(),
    ensures
        backed(b, a, f, q, j),
{
    reveal(covered);
}

pub proof fn lemma_covered_from(b: Graph, a: Graph, f: Frame)
    requires
        forall|q: int, j: int|
            0 <= q < b.len() && inner(q, f.lo, f.hi) && 0 <= j < b[q].len() ==> #[trigger] backed(
                b,
                a,
                f,
                q,
                j,
            ),
    ensures
        covered(b, a, f),
{
    reveal(covered);
}

/// The frame of the range of at least one copy, with `j` optional copies.
pub open spec fn frame_of(e: ExprView, names: Names, n: nat, lazy: bool, j: nat) -> Frame {
    let cut = exact(e, names, empty_build(), n).build.graph.len() as int;
    Frame { lo: cut, hi: cut + 2, e, names, n, lazy, from: 0, upto: j }
}

/// The edges of a copy in the table of a range come from the automaton of
/// the count; the entry of the range has its one edge, and the exit none.
proof fn lemma_stage_back(e: ExprView, names: Names, n: nat, lazy: bool, j: nat)
    requires
        n >= 1,
    ensures
        ({
            let head = exact(e, names, empty_build(), n);
            let cut = head.build.graph.len() as int;
            let count = repeat(e, names, empty_build(), n + j);
            let stage = range_stage(e, names, n, lazy, j);
            &&& covered(stage.0, count.build.graph, frame_of(e, names, n, lazy, j))
            &&& cut + 2 <= stage.0.len()
            &&& stage.0[cut] == seq![(Label::Epsilon, head.start)]
            &&& stage.0[cut + 1] == Seq::<Edge>::empty()
            &&& 0 <= head.start < cut
            &&& inner(stage.1, cut, cut + 2)
            &&& 0 <= stage.1 < stage.0.len()
        }),
    decreases j,
{
    let b0 = empty_build();
    let head = exact(e, names, b0, n);
    let cut = head.build.graph.len() as int;
    let base = range_base(e, names, n);
    lemma_exact(e, names, b0, n);
    assert(graph_closed(b0.graph));
    let count = repeat(e, names, b0, n + j);
    let stage = range_stage(e, names, n, lazy, j);
    let f = frame_of(e, names, n, lazy, j);
    lemma_repeat(e, names, b0, n + j);
    lemma_stage(e, names, n, lazy, j);
    if j == 0 {
        assert(count == head);
        assert(stage == (base, head.accept));
        let g2 = with_state(with_state(head.build.graph));
        assert(g2[cut] =~= Seq::<Edge>::empty());
        assert(base[cut] =~= seq![(Label::Epsilon, head.start)]);
        assert(base[cut + 1] =~= Seq::<Edge>::empty());
        assert forall|q: int, k: int|
            0 <= q < base.len() && inner(q, f.lo, f.hi) && 0 <= k < base[q].len() implies #[trigger] backed(
            base,
            head.build.graph,
            f,
            q,
            k,
        ) by {
            assert(q < cut);
            assert(base[q] == head.build.graph[q]);
            let x = head.build.graph[q][k];
            assert(0 <= x.1 < cut);
            assert(head.build.graph[q].contains(x));
        }
        lemma_covered_from(base, head.build.graph, f);
    } else {
        lemma_stage_back(e, names, n, lazy, (j - 1) as nat);
        lemma_stage(e, names, n, lazy, (j - 1) as nat);
        let before = repeat(e, names, b0, (n + j - 1) as nat);
        let earlier = range_stage(e, names, n, lazy, (j - 1) as nat);
        let last = earlier.1;
        let again_a = Build { graph: before.build.graph, next_group: b0.next_group };
        let again_b = Build { graph: earlier.0, next_group: b0.next_group };
        let ca = thompson(e, names, again_a);
        let cb = thompson(e, names, again_b);
        lemma_repeat(e, names, b0, (n + j - 1) as nat);
        lemma_thompson(e, names, again_a);
        lemma_thompson(e, names, again_b);
        lemma_shift(e, names, again_a, again_b, before.build.graph.len() as int, 2);
        assert(count == joined(before, ca));
        let linked = if lazy {
            with_edge(
                with_edge(cb.build.graph, last, Label::Epsilon, cut + 1),
                last,
                Label::Epsilon,
                cb.start,
            )
        } else {
            with_edge(
                with_edge(cb.build.graph, last, Label::Epsilon, cb.start),
                last,
                Label::Epsilon,
                cut + 1,
            )
        };
        assert(stage == (linked, cb.accept));
        assert(linked[cut] == cb.build.graph[cut]);
        assert(linked[cut + 1] == cb.build.graph[cut + 1]);
        assert(cb.build.graph[cut] == earlier.0[cut]);
        assert(cb.build.graph[cut + 1] == earlier.0[cut + 1]);
        lemma_count_backed(frame_of(e, names, n, lazy, (j - 1) as nat), f, before, ca, earlier.0, cb, linked, last);
    }
}

/// One more copy keeps every edge of the range [`backed`].
pub proof fn lemma_count_backed(
    old_frame: Frame,
    f: Frame,
    before: Piece,
    ca: Piece,
    earlier: Graph,
    cb: Piece,
    linked: Graph,
    last: int,
)
    requires
        f.upto >= 1,
        f.from <= f.upto,
        old_frame == (Frame { upto: (f.upto - 1) as nat, ..f }),
        covered(earlier, before.build.graph, old_frame),
        earlier.len() == before.build.graph.len() + (f.hi - f.lo),
        0 <= f.lo <= before.build.graph.len(),
        f.lo + 2 <= f.hi,
        0 <= before.accept < before.build.graph.len(),
        last == lifted(before.accept, f.lo, f.hi),
        inner(last, f.lo, f.hi) ==> f.from <= f.upto - 1 && last == range_stage(
            f.e,
            f.names,
            f.n,
            f.lazy,
            (f.upto - 1) as nat,
        ).1,
        extends(before.build.graph, ca.build.graph, false),
        extends(earlier, cb.build.graph, false),
        shifted(ca.build.graph, before.build.graph.len() as int, cb.build.graph, f.hi - f.lo),
        cb.start == ca.start + (f.hi - f.lo),
        before.build.graph.len() <= ca.start < ca.build.graph.len(),
        linked == if f.lazy {
            with_edge(
                with_edge(cb.build.graph, last, Label::Epsilon, f.hi - 1),
                last,
                Label::Epsilon,
                cb.start,
            )
        } else {
            with_edge(
                with_edge(cb.build.graph, last, Label::Epsilon, cb.start),
                last,
                Label::Epsilon,
                f.hi - 1,
            )
        },
    ensures
        covered(linked, joined(before, ca).build.graph, f),
{
    let g = joined(before, ca).build.graph;
    let old = before.build.graph;
    let exit = f.hi - 1;
    let d = f.hi - f.lo;
    assert forall|q: int, k: int|
        0 <= q < linked.len() && inner(q, f.lo, f.hi) && 0 <= k < linked[q].len() implies #[trigger] backed(
        linked,
        g,
        f,
        q,
        k,
    ) by {
        let x = linked[q][k];
        if q >= earlier.len() {
            assert(linked[q] == cb.build.graph[q]);
            assert(cb.build.graph[q] == moved(ca.build.graph[q - d], d));
            let y = ca.build.graph[q - d][k];
            assert(x == (y.0, y.1 + d));
            assert(old.len() <= y.1);
            assert(g[q - d] == ca.build.graph[q - d]);
            assert(g[q - d].contains(y));
        } else {
            assert(cb.build.graph[q] == earlier[q]);
            if q == last && k >= earlier[q].len() {
                assert(x == (Label::Epsilon, exit) || x == (Label::Epsilon, cb.start));
                if x.1 == exit {
                    assert(is_exit(f.e, f.names, f.n, f.lazy, f.from, f.upto, q)) by {
                        assert(range_stage(f.e, f.names, f.n, f.lazy, (f.upto - 1) as nat).1 == q);
                    }
                } else {
                    assert(x == (Label::Epsilon, cb.start));
                    assert(lowered(q, f.lo, f.hi) == before.accept);
                    assert(g[before.accept] == ca.build.graph[before.accept].push(
                        (Label::Epsilon, ca.start),
                    ));
                    assert(g[before.accept][ca.build.graph[before.accept].len() as int] == (
                        Label::Epsilon,
                        ca.start,
                    ));
                    assert(g[before.accept].contains((Label::Epsilon, ca.start)));
                }
            } else {
                assert(x == earlier[q][k]);
                lemma_covered_at(earlier, old, old_frame, q, k);
                if x.1 == exit {
                    let i = choose|i: nat|
                        f.from <= i <= (f.upto - 1) as nat && (#[trigger] range_stage(
                            f.e,
                            f.names,
                            f.n,
                            f.lazy,
                            i,
                        )).1 == q;
                    assert(is_exit(f.e, f.names, f.n, f.lazy, f.from, f.upto, q)) by {
                        assert(f.from <= i <= f.upto && range_stage(f.e, f.names, f.n, f.lazy, i).1 == q);
                    }
                } else {
                    let back = lowered(q, f.lo, f.hi);
                    let y = (x.0, lowered(x.1, f.lo, f.hi));
                    assert(old[back].contains(y));
                    let at = choose|at: int| 0 <= at < old[back].len() && old[back][at] == y;
                    assert(ca.build.graph[back] == old[back]);
                    if back == before.accept {
                        assert(g[back] == ca.build.graph[back].push((Label::Epsilon, ca.start)));
                    } else {
                        assert(g[back] == ca.build.graph[back]);
                    }
                    assert(g[back][at] == y);
                    assert(g[back].contains(y));
                }
            }
        }
    }
    lemma_covered_from(linked, g, f);
}

/// A walk from its first step on.
pub proof fn lemma_walk_front(m: Machine, input: Seq<char>, c: Config, path: Seq<int>)
    requires
        path.len() > 0,
    ensures
        walk(m, input, c, path) == match step(m, input, c, path[0]) {
            Some(next) => walk(m, input, next, path.drop_first()),
            None => None,
        },
{
    let opening = Seq::<int>::empty().push(path[0]);
    assert(opening + path.drop_first() =~= path);
    assert(walk(m, input, c, Seq::<int>::empty()) == Some(c));
    lemma_walk_on(m, input, c, Seq::<int>::empty(), path[0]);
    lemma_walk_concat(m, input, c, opening, path.drop_first());
}

/// A walk through the copies of a range is a walk through the automaton of
/// the largest count.
pub proof fn lemma_walk_lowered(
    b: Machine,
    a: Machine,
    f: Frame,
    input: Seq<char>,
    c: Config,
    path: Seq<int>,
)
    requires
        covered(b.graph, a.graph, f),
        0 <= f.hi - 1 < b.graph.len(),
        b.graph[f.hi - 1].len() == 0,
        a.names == b.names,
        a.flags == b.flags,
        inner(c.state, f.lo, f.hi),
        walk(b, input, c, path) is Some,
        walk(b, input, c, path)->Some_0.state != f.hi - 1,
    ensures
        inner(walk(b, input, c, path)->Some_0.state, f.lo, f.hi),
        exists|other: Seq<int>| #[trigger]
            walk(
                a,
                input,
                Config { state: lowered(c.state, f.lo, f.hi), pos: c.pos, caps: c.caps },
                other,
            ) == Some(
                Config {
                    state: lowered(walk(b, input, c, path)->Some_0.state, f.lo, f.hi),
                    pos: walk(b, input, c, path)->Some_0.pos,
                    caps: walk(b, input, c, path)->Some_0.caps,
                },
            ),
    decreases path.len(),
{
    let from = Config { state: lowered(c.state, f.lo, f.hi), pos: c.pos, caps: c.caps };
    let exit = f.hi - 1;
    if path.len() == 0 {
        assert(walk(a, input, from, Seq::<int>::empty()) == Some(from));
    } else {
        let before = walk(b, input, c, path.drop_last())->Some_0;
        let end = walk(b, input, c, path)->Some_0;
        let j = path.last();
        assert(step(b, input, before, j) == Some(end));
        assert(0 <= before.state < b.graph.len());
        assert(before.state != exit);
        lemma_walk_lowered(b, a, f, input, c, path.drop_last());
        let shorter = choose|other: Seq<int>| #[trigger]
            walk(a, input, from, other) == Some(
                Config { state: lowered(before.state, f.lo, f.hi), pos: before.pos, caps: before.caps },
            );
        lemma_covered_at(b.graph, a.graph, f, before.state, j);
        let edge = b.graph[before.state][j];
        assert(edge.1 == end.state);
        let image = (edge.0, lowered(edge.1, f.lo, f.hi));
        let back = a.graph[lowered(before.state, f.lo, f.hi)];
        assert(back.contains(image));
        let k = choose|k: int| 0 <= k < back.len() && back[k] == image;
        assert(crosses(a, input, before.pos, edge.0, before.caps) == crosses(
            b,
            input,
            before.pos,
            edge.0,
            before.caps,
        ));
        lemma_walk_on(a, input, from, shorter, k);
        assert(walk(a, input, from, shorter.push(k)) == Some(
            Config { state: lowered(end.state, f.lo, f.hi), pos: end.pos, caps: end.caps },
        ));
    }
}

/// What `e{n,m}` matches, `e{k}` matches for a `k` from `n` to `m`: for an
/// expression without backreferences and `1 <= n < m`, if `e{n,m}` has a
/// match at `start`, then for some such `k` the pattern `e{k}` has a match
/// at `start` that ends there or later.
pub proof fn lemma_range_is_some_count(
    e: ExprView,
    flags: ModeFlags,
    n: u32,
    m: u32,
    lazy: bool,
    input: Seq<char>,
    start: int,
) -> (k: u32)
    requires
        no_backrefs(e),
        1 <= n < m,
        0 <= start <= input.len(),
        match_at(machine_of(range_of(e, n, m, lazy), flags), input, start) is Some,
    ensures
        n <= k <= m,
        match_at(machine_of(count_of(e, k), flags), input, start) is Some,
        match_at(machine_of(count_of(e, k), flags), input, start)->Some_0.0 >= match_at(
            machine_of(range_of(e, n, m, lazy), flags),
            input,
            start,
        )->Some_0.0,
{
    let names = declared(e);
    let b0 = empty_build();
    let mb = machine_of(range_of(e, n, m, lazy), flags);
    let full = machine_of(count_of(e, m), flags);
    assert(declared(count_of(e, m)) == names);
    assert(declared(range_of(e, n, m, lazy)) == names);
    let head = exact(e, names, b0, n as nat);
    let cut = head.build.graph.len() as int;
    let exit = cut + 1;
    assert(automaton(count_of(e, m)) == exact(e, names, b0, m as nat));
    assert(automaton(range_of(e, n, m, lazy)) == between(e, names, b0, n as nat, m as nat, lazy));
    let top = range_stage(e, names, n as nat, lazy, (m - n) as nat);
    let f = frame_of(e, names, n as nat, lazy, (m - n) as nat);
    lemma_stage(e, names, n as nat, lazy, (m - n) as nat);
    lemma_stage_back(e, names, n as nat, lazy, (m - n) as nat);
    let whole = with_edge(top.0, top.1, Label::Epsilon, exit);
    assert(mb.graph == whole);
    assert(mb.start == cut && mb.accept == exit);
    let biggest = repeat(e, names, b0, m as nat);
    assert(full.graph == biggest.build.graph);
    // every edge of the range is backed by the largest count
    assert forall|q: int, j: int|
        0 <= q < whole.len() && inner(q, f.lo, f.hi) && 0 <= j < whole[q].len() implies #[trigger] backed(
        whole,
        biggest.build.graph,
        f,
        q,
        j,
    ) by {
        if q == top.1 && j == top.0[q].len() {
            assert(whole[q][j] == (Label::Epsilon, exit));
            assert(is_exit(e, names, n as nat, lazy, 0, (m - n) as nat, q)) by {
                assert(range_stage(e, names, n as nat, lazy, (m - n) as nat).1 == q);
            }
        } else {
            assert(whole[q][j] == top.0[q][j]);
            lemma_covered_at(top.0, biggest.build.graph, f, q, j);
        }
    }
    lemma_covered_from(whole, biggest.build.graph, f);
    assert(whole[cut] == top.0[cut]);
    assert(whole[cut + 1] == top.0[cut + 1]);
    // the walk of the match
    lemma_match_is_walk(mb, input, start);
    let end = match_at(mb, input, start)->Some_0;
    let done = Config { state: exit, pos: end.0, caps: end.1 };
    let path = choose|path: Seq<int>| #[trigger] walk(mb, input, origin(mb, start), path) == Some(done);
    assert(path.len() > 0);
    let pre = path.drop_last();
    let before = walk(mb, input, origin(mb, start), pre)->Some_0;
    let last = path.last();
    assert(step(mb, input, before, last) == Some(done));
    assert(0 <= before.state < whole.len());
    assert(before.state != exit);
    assert(before.state != cut) by {
        if before.state == cut {
            assert(whole[cut][last] == (Label::Epsilon, head.start));
        }
    }
    lemma_covered_at(whole, biggest.build.graph, f, before.state, last);
    assert(whole[before.state][last].1 == exit);
    assert(is_exit(e, names, n as nat, lazy, 0, (m - n) as nat, before.state));
    let i = choose|i: nat|
        0 <= i <= (m - n) as nat && (#[trigger] range_stage(e, names, n as nat, lazy, i)).1
            == before.state;
    let k = (n + i) as u32;
    lemma_stage(e, names, n as nat, lazy, i);
    let mine = repeat(e, names, b0, (n + i) as nat);
    assert(before.state == lifted(mine.accept, cut, cut + 2));
    assert(lowered(before.state, cut, cut + 2) == mine.accept);
    // from the entry of the range into the first copy
    assert(pre.len() > 0);
    lemma_walk_front(mb, input, origin(mb, start), pre);
    let entered = Config { state: head.start, pos: start, caps: Map::empty() };
    assert(step(mb, input, origin(mb, start), pre[0]) == Some(entered)) by {
        assert(whole[cut][pre[0]] == (Label::Epsilon, head.start));
    }
    let middle = pre.drop_first();
    assert(walk(mb, input, entered, middle) == Some(before));
    lemma_walk_lowered(mb, full, f, input, entered, middle);
    let reached = Config { state: mine.accept, pos: before.pos, caps: before.caps };
    let other = choose|other: Seq<int>| #[trigger]
        walk(
            full,
            input,
            Config { state: lowered(entered.state, f.lo, f.hi), pos: entered.pos, caps: entered.caps },
            other,
        ) == Some(
            Config { state: lowered(before.state, f.lo, f.hi), pos: before.pos, caps: before.caps },
        );
    assert(lowered(entered.state, cut, cut + 2) == head.start);
    lemma_stage(e, names, n as nat, lazy, (m - n) as nat);
    assert(biggest.start == head.start);
    assert(origin(full, start) == entered);
    assert(walk(full, input, origin(full, start), other) == Some(reached));
    assert(before.pos == end.0);
    // the walk of the count
    let mk = machine_of(count_of(e, k), flags);
    assert(declared(count_of(e, k)) == names);
    assert(automaton(count_of(e, k)) == exact(e, names, b0, k as nat));
    assert(mk.graph == mine.build.graph);
    assert(mk.accept == mine.accept);
    assert(mk.start == head.start);
    lemma_automaton_plain(count_of(e, k), flags);
    if (n + i) < m {
        lemma_repeat_grows(e, names, (n + i) as nat, m as nat);
        lemma_repeat(e, names, b0, m as nat);
        assert(graph_closed(b0.graph));
        lemma_walk_within(mk, full, mine.accept, input, origin(full, start), other);
    }
    assert(origin(mk, start) == origin(full, start));
    assert(walk(mk, input, origin(mk, start), other) == Some(reached));
    lemma_plain_match_complete(mk, input, start, other);
    k
}

/// A counted range matches what its best count matches: for an expression
/// without backreferences and `1 <= n < m`, the pattern `e{n,m}` has a
/// match at `start` just when `e{k}` has one for some `k` from `n` to `m`,
/// and its match ends where the longest match of these `e{k}` ends.
pub proof fn lemma_range_is_best_count(
    e: ExprView,
    flags: ModeFlags,
    n: u32,
    m: u32,
    lazy: bool,
    input: Seq<char>,
    start: int,
)
    requires
        no_backrefs(e),
        1 <= n < m,
        0 <= start <= input.len(),
    ensures
        match_at(machine_of(range_of(e, n, m, lazy), flags), input, start) is Some <==> exists|
            k: u32,
        |
            n <= k <= m && (#[trigger] match_at(machine_of(count_of(e, k), flags), input, start))
                is Some,
        match_at(machine_of(range_of(e, n, m, lazy), flags), input, start) is Some ==> {
            &&& forall|k: u32|
                n <= k <= m && (#[trigger] match_at(machine_of(count_of(e, k), flags), input, start))
                    is Some ==> match_at(machine_of(count_of(e, k), flags), input, start)->Some_0.0
                    <= match_at(machine_of(range_of(e, n, m, lazy), flags), input, start)->Some_0.0
            &&& exists|k: u32|
                n <= k <= m && (#[trigger] match_at(machine_of(count_of(e, k), flags), input, start))
                    is Some && match_at(machine_of(count_of(e, k), flags), input, start)->Some_0.0
                    == match_at(machine_of(range_of(e, n, m, lazy), flags), input, start)->Some_0.0
        },
{
    let range = match_at(machine_of(range_of(e, n, m, lazy), flags), input, start);
    assert forall|k: u32|
        n <= k <= m && (#[trigger] match_at(machine_of(count_of(e, k), flags), input, start))
            is Some implies range is Some && match_at(
        machine_of(count_of(e, k), flags),
        input,
        start,
    )->Some_0.0 <= range->Some_0.0 by {
        lemma_range_holds_count(e, flags, n, m, k, lazy, input, start);
    }
    if range is Some {
        let k = lemma_range_is_some_count(e, flags, n, m, lazy, input, start);
        lemma_range_holds_count(e, flags, n, m, k, lazy, input, start);
        assert(match_at(machine_of(count_of(e, k), flags), input, start) is Some);
    }
}

} // verus!
