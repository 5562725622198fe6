//! A counted range that starts at zero holds every count in it, the count
//! of no copy included: what `e{0,m}` matches is what `e{k}` matches for a
//! `k` from 0 to `m`.
//!
//! The automaton of `e{0,m}` begins with the piece that matches the empty
//! string, then come the entry and the exit of the range, and then the
//! copies: four states further on than in the automaton of a count.

use crate::ast::ExprView;
use crate::complete::{lemma_automaton_plain, lemma_plain_match_complete};
use crate::counted::lemma_zero_times;
use crate::engine::{ModeFlags, machine_of};
use crate::groups::{Names, declared};
use crate::paths::{Config, lemma_match_is_walk, lemma_walk_on, origin, step, walk};
use crate::pieces::{lemma_repeat, lemma_thompson, no_backrefs};
use crate::ranges::{
    Frame, backed, contained, count_of, covered, embeds, inner, is_exit, lemma_contained_at,
    lemma_contained_chain, lemma_contained_edge, lemma_contained_extends, lemma_contained_len,
    lemma_contained_self, lemma_count_backed, lemma_count_embeds, lemma_covered_at,
    lemma_covered_from, lemma_embeds_contained, lemma_embeds_from, lemma_linked,
    lemma_range_is_best_count, lemma_repeat_grows, lemma_walk_concat, lemma_walk_front,
    lemma_walk_lifted, lemma_walk_lowered, lemma_walk_within, lifted, lowered, placed, range_base,
    range_of, range_stage,
};
use crate::shift::{lemma_shift, moved};
use crate::simulation::{Machine, match_at};
use crate::thompson::{
    Build, Edge, Label, automaton, between, empty_build, exact, graph_closed, joined, pair, repeat,
    thompson, with_edge,
};
use vstd::prelude::*;

verus! {

/// The state in which the first copy of the range `e{0,m}` begins.
pub open spec fn first_copy(e: ExprView, names: Names) -> int {
    thompson(
        e,
        names,
        Build { graph: range_base(e, names, 0), next_group: empty_build().next_group },
    ).start
}

/// The frame of the range from zero with `j` optional copies: the first
/// four states belong to the range alone, and the counts begin at one.
pub open spec fn frame_zero(e: ExprView, names: Names, lazy: bool, j: nat) -> Frame {
    Frame { lo: 0, hi: 4, e, names, n: 0, lazy, from: 1, upto: j }
}

/// The first four states of the range from zero: the empty piece, the
/// entry of the range with its edge into the empty piece, and the exit.
proof fn lemma_base_zero(e: ExprView, names: Names)
    ensures
        ({
            let base = range_base(e, names, 0);
            &&& base.len() == 4
            &&& base[0] == seq![(Label::Epsilon, 1int)]
            &&& base[1] == Seq::<Edge>::empty()
            &&& base[2] == seq![(Label::Epsilon, 0int)]
            &&& base[3] == Seq::<Edge>::empty()
            &&& exact(e, names, empty_build(), 0).start == 0
            &&& exact(e, names, empty_build(), 0).accept == 1
            &&& exact(e, names, empty_build(), 0).build.graph.len() == 2
        }),
{
    let b0 = empty_build();
    let head = exact(e, names, b0, 0);
    let moved_on = Build { graph: b0.graph, next_group: b0.next_group + declared(e).len() };
    assert(head == pair(moved_on, Label::Epsilon));
    let g = head.build.graph;
    assert(g.len() == 2);
    assert(g[0] =~= seq![(Label::Epsilon, 1int)]);
    assert(g[1] =~= Seq::<Edge>::empty());
    let base = range_base(e, names, 0);
    assert(base[0] =~= g[0]);
    assert(base[1] =~= g[1]);
    assert(base[2] =~= seq![(Label::Epsilon, 0int)]);
    assert(base[3] =~= Seq::<Edge>::empty());
}

/// The automaton of `j` copies lies in the table of the range from zero
/// with `j` optional copies, four states further on.
proof fn lemma_stage_zero(e: ExprView, names: Names, lazy: bool, j: nat)
    requires
        j >= 1,
    ensures
        ({
            let count = repeat(e, names, empty_build(), j);
            let stage = range_stage(e, names, 0, lazy, j);
            &&& embeds(count.build.graph, stage.0, 0, 4)
            &&& stage.0.len() == count.build.graph.len() + 4
            &&& stage.1 == count.accept + 4
            &&& 0 <= count.accept < count.build.graph.len()
            &&& 0 <= count.start < count.build.graph.len()
            &&& count.start + 4 == first_copy(e, names)
            &&& graph_closed(count.build.graph)
            &&& contained(range_base(e, names, 0), stage.0)
            &&& 4 <= stage.1 < stage.0.len()
            &&& stage.0[1].contains((Label::Epsilon, first_copy(e, names)))
            &&& stage.0[1].contains((Label::Epsilon, 3int))
            &&& (forall|i: nat|
                1 <= i < j ==> contained(#[trigger] range_stage(e, names, 0, lazy, i).0, stage.0) && 4
                    <= range_stage(e, names, 0, lazy, i).1 < range_stage(e, names, 0, lazy, i).0.len()
                    && stage.0[range_stage(e, names, 0, lazy, i).1].contains((Label::Epsilon, 3int)))
        }),
    decreases j,
{
    let b0 = empty_build();
    let base = range_base(e, names, 0);
    lemma_base_zero(e, names);
    assert(graph_closed(b0.graph));
    let count = repeat(e, names, b0, j);
    let stage = range_stage(e, names, 0, lazy, j);
    lemma_repeat(e, names, b0, j);
    let earlier = range_stage(e, names, 0, lazy, (j - 1) as nat);
    let last = earlier.1;
    if j == 1 {
        assert(earlier == (base, 1int));
        let ca = thompson(e, names, b0);
        let onto = Build { graph: base, next_group: b0.next_group };
        let cb = thompson(e, names, onto);
        assert(count == ca);
        lemma_thompson(e, names, b0);
        lemma_thompson(e, names, onto);
        lemma_shift(e, names, b0, onto, 0, 4);
        let linked = if lazy {
            with_edge(with_edge(cb.build.graph, 1, Label::Epsilon, 3), 1, Label::Epsilon, cb.start)
        } else {
            with_edge(with_edge(cb.build.graph, 1, Label::Epsilon, cb.start), 1, Label::Epsilon, 3)
        };
        assert(stage == (linked, cb.accept));
        lemma_contained_extends(base, cb.build.graph);
        lemma_linked(cb.build.graph, 1, 3, cb.start, lazy);
        lemma_contained_chain(base, cb.build.graph, linked);
        lemma_contained_len(cb.build.graph, linked);
        assert forall|q: int, k: int|
            0 <= q < ca.build.graph.len() && 0 <= k < ca.build.graph[q].len() implies #[trigger] placed(
            ca.build.graph,
            linked,
            0,
            4,
            q,
            k,
        ) by {
            let x = ca.build.graph[q][k];
            assert(cb.build.graph[q + 4] == moved(ca.build.graph[q], 4));
            assert(moved(ca.build.graph[q], 4)[k] == (x.0, x.1 + 4));
            assert(cb.build.graph[q + 4].contains((x.0, x.1 + 4)));
            assert(0 <= x.1);
            lemma_contained_at(cb.build.graph, linked, q + 4, (x.0, x.1 + 4));
        }
        lemma_embeds_from(ca.build.graph, linked, 0, 4);
    } else {
        lemma_stage_zero(e, names, lazy, (j - 1) as nat);
        let before = repeat(e, names, b0, (j - 1) as nat);
        let again_a = Build { graph: before.build.graph, next_group: b0.next_group };
        let again_b = Build { graph: earlier.0, next_group: b0.next_group };
        let ca = thompson(e, names, again_a);
        let cb = thompson(e, names, again_b);
        lemma_repeat(e, names, b0, (j - 1) as nat);
        lemma_thompson(e, names, again_a);
        lemma_thompson(e, names, again_b);
        lemma_shift(e, names, again_a, again_b, before.build.graph.len() as int, 4);
        assert(count == joined(before, ca));
        let linked = if lazy {
            with_edge(
                with_edge(cb.build.graph, last, Label::Epsilon, 3),
                last,
                Label::Epsilon,
                cb.start,
            )
        } else {
            with_edge(
                with_edge(cb.build.graph, last, Label::Epsilon, cb.start),
                last,
                Label::Epsilon,
                3,
            )
        };
        assert(stage == (linked, cb.accept));
        lemma_contained_extends(earlier.0, cb.build.graph);
        lemma_linked(cb.build.graph, last, 3, cb.start, lazy);
        lemma_contained_chain(earlier.0, cb.build.graph, linked);
        lemma_contained_chain(base, earlier.0, linked);
        lemma_contained_len(earlier.0, linked);
        lemma_contained_at(earlier.0, linked, 1, (Label::Epsilon, first_copy(e, names)));
        lemma_contained_at(earlier.0, linked, 1, (Label::Epsilon, 3int));
        assert forall|i: nat| 1 <= i < j implies contained(
            #[trigger] range_stage(e, names, 0, lazy, i).0,
            linked,
        ) && 4 <= range_stage(e, names, 0, lazy, i).1 < range_stage(e, names, 0, lazy, i).0.len()
            && linked[range_stage(e, names, 0, lazy, i).1].contains((Label::Epsilon, 3int)) by {
            if i < j - 1 {
                let old = range_stage(e, names, 0, lazy, i);
                lemma_contained_chain(old.0, earlier.0, linked);
                lemma_contained_len(old.0, earlier.0);
                lemma_contained_at(earlier.0, linked, old.1, (Label::Epsilon, 3int));
            }
        }
        lemma_count_embeds(before, ca, earlier.0, cb, linked, 0, 4, last);
    }
}

/// The edges of a copy in the table of the range from zero come from the
/// automaton of the count; the first four states have the edges of the
/// empty piece, of the entry and of the exit, and the edges into the first
/// copy and to the exit.
proof fn lemma_stage_zero_back(e: ExprView, names: Names, lazy: bool, j: nat)
    requires
        j >= 1,
    ensures
        ({
            let count = repeat(e, names, empty_build(), j);
            let stage = range_stage(e, names, 0, lazy, j);
            &&& covered(stage.0, count.build.graph, frame_zero(e, names, lazy, j))
            &&& 4 <= stage.0.len()
            &&& stage.0[0] == seq![(Label::Epsilon, 1int)]
            &&& stage.0[2] == seq![(Label::Epsilon, 0int)]
            &&& stage.0[3] == Seq::<Edge>::empty()
            &&& 4 <= first_copy(e, names)
            &&& (forall|k: int|
                0 <= k < stage.0[1].len() ==> #[trigger] stage.0[1][k] == (
                    Label::Epsilon,
                    first_copy(e, names),
                ) || stage.0[1][k] == (Label::Epsilon, 3int))
        }),
    decreases j,
{
    let b0 = empty_build();
    let base = range_base(e, names, 0);
    lemma_base_zero(e, names);
    assert(graph_closed(b0.graph));
    let count = repeat(e, names, b0, j);
    let stage = range_stage(e, names, 0, lazy, j);
    let f = frame_zero(e, names, lazy, j);
    lemma_repeat(e, names, b0, j);
    lemma_stage_zero(e, names, lazy, j);
    let earlier = range_stage(e, names, 0, lazy, (j - 1) as nat);
    let last = earlier.1;
    if j == 1 {
        assert(earlier == (base, 1int));
        let ca = thompson(e, names, b0);
        let onto = Build { graph: base, next_group: b0.next_group };
        let cb = thompson(e, names, onto);
        assert(count == ca);
        lemma_thompson(e, names, b0);
        lemma_thompson(e, names, onto);
        lemma_shift(e, names, b0, onto, 0, 4);
        let linked = if lazy {
            with_edge(with_edge(cb.build.graph, 1, Label::Epsilon, 3), 1, Label::Epsilon, cb.start)
        } else {
            with_edge(with_edge(cb.build.graph, 1, Label::Epsilon, cb.start), 1, Label::Epsilon, 3)
        };
        assert(stage == (linked, cb.accept));
        assert(cb.build.graph[0] == base[0]);
        assert(cb.build.graph[1] == base[1]);
        assert(cb.build.graph[2] == base[2]);
        assert(cb.build.graph[3] == base[3]);
        assert(linked[0] == cb.build.graph[0]);
        assert(linked[2] == cb.build.graph[2]);
        assert(linked[3] == cb.build.graph[3]);
        assert forall|q: int, k: int|
            0 <= q < linked.len() && inner(q, f.lo, f.hi) && 0 <= k < linked[q].len() implies #[trigger] backed(
            linked,
            ca.build.graph,
            f,
            q,
            k,
        ) by {
            assert(linked[q] == cb.build.graph[q]);
            assert(cb.build.graph[q] == moved(ca.build.graph[q - 4], 4));
            let y = ca.build.graph[q - 4][k];
            assert(linked[q][k] == (y.0, y.1 + 4));
            assert(0 <= y.1);
            assert(ca.build.graph[q - 4].contains(y));
        }
        lemma_covered_from(linked, ca.build.graph, f);
    } else {
        lemma_stage_zero_back(e, names, lazy, (j - 1) as nat);
        lemma_stage_zero(e, names, lazy, (j - 1) as nat);
        let before = repeat(e, names, b0, (j - 1) as nat);
        let again_a = Build { graph: before.build.graph, next_group: b0.next_group };
        let again_b = Build { graph: earlier.0, next_group: b0.next_group };
        let ca = thompson(e, names, again_a);
        let cb = thompson(e, names, again_b);
        lemma_repeat(e, names, b0, (j - 1) as nat);
        lemma_thompson(e, names, again_a);
        lemma_thompson(e, names, again_b);
        lemma_shift(e, names, again_a, again_b, before.build.graph.len() as int, 4);
        assert(count == joined(before, ca));
        let linked = if lazy {
            with_edge(
                with_edge(cb.build.graph, last, Label::Epsilon, 3),
                last,
                Label::Epsilon,
                cb.start,
            )
        } else {
            with_edge(
                with_edge(cb.build.graph, last, Label::Epsilon, cb.start),
                last,
                Label::Epsilon,
                3,
            )
        };
        assert(stage == (linked, cb.accept));
        assert(cb.build.graph[0] == earlier.0[0]);
        assert(cb.build.graph[1] == earlier.0[1]);
        assert(cb.build.graph[2] == earlier.0[2]);
        assert(cb.build.graph[3] == earlier.0[3]);
        assert(linked[0] == cb.build.graph[0]);
        assert(linked[1] == cb.build.graph[1]);
        assert(linked[2] == cb.build.graph[2]);
        assert(linked[3] == cb.build.graph[3]);
        lemma_count_backed(
            frame_zero(e, names, lazy, (j - 1) as nat),
            f,
            before,
            ca,
            earlier.0,
            cb,
            linked,
            last,
        );
    }
}

/// The automaton of the range `e{0,m}`: the table of the last stage with
/// the edge from the exit of the last copy to the exit of the range.
proof fn lemma_whole_zero(e: ExprView, flags: ModeFlags, m: u32, lazy: bool)
    requires
        m >= 1,
    ensures
        ({
            let names = declared(e);
            let mb = machine_of(range_of(e, 0, m, lazy), flags);
            let top = range_stage(e, names, 0, lazy, m as nat);
            &&& mb.graph == with_edge(top.0, top.1, Label::Epsilon, 3)
            &&& mb.start == 2
            &&& mb.accept == 3
            &&& mb.names == names
            &&& mb.flags == flags
            &&& contained(top.0, mb.graph)
            &&& mb.graph.len() == top.0.len()
            &&& mb.graph[top.1].contains((Label::Epsilon, 3int))
            &&& mb.graph[0] == seq![(Label::Epsilon, 1int)]
            &&& mb.graph[2] == seq![(Label::Epsilon, 0int)]
            &&& mb.graph[3] == Seq::<Edge>::empty()
            &&& mb.graph[1] == top.0[1]
        }),
{
    let names = declared(e);
    let b0 = empty_build();
    lemma_base_zero(e, names);
    assert(declared(range_of(e, 0, m, lazy)) == names);
    assert(automaton(range_of(e, 0, m, lazy)) == between(e, names, b0, 0, m as nat, lazy));
    let top = range_stage(e, names, 0, lazy, m as nat);
    lemma_stage_zero(e, names, lazy, m as nat);
    lemma_stage_zero_back(e, names, lazy, m as nat);
    lemma_contained_edge(top.0, top.1, Label::Epsilon, 3);
}

/// A walk from the entry of the range `e{0,m}` into its first copy.
proof fn lemma_enter_zero(e: ExprView, flags: ModeFlags, m: u32, lazy: bool, input: Seq<char>, start: int)
    requires
        m >= 1,
    ensures
        ({
            let mb = machine_of(range_of(e, 0, m, lazy), flags);
            &&& exists|path: Seq<int>| #[trigger]
                walk(mb, input, origin(mb, start), path) == Some(
                    Config { state: first_copy(e, declared(e)), pos: start, caps: Map::empty() },
                )
            &&& exists|path: Seq<int>| #[trigger]
                walk(mb, input, origin(mb, start), path) == Some(
                    Config { state: 3, pos: start, caps: Map::empty() },
                )
        }),
{
    let names = declared(e);
    let mb = machine_of(range_of(e, 0, m, lazy), flags);
    let top = range_stage(e, names, 0, lazy, m as nat);
    lemma_whole_zero(e, flags, m, lazy);
    lemma_stage_zero(e, names, lazy, m as nat);
    let first = first_copy(e, names);
    lemma_contained_at(top.0, mb.graph, 1, (Label::Epsilon, first));
    lemma_contained_at(top.0, mb.graph, 1, (Label::Epsilon, 3int));
    let none = Map::<u32, (usize, usize)>::empty();
    let at0 = Config { state: 0, pos: start, caps: none };
    let at1 = Config { state: 1, pos: start, caps: none };
    let nothing = Seq::<int>::empty();
    assert(walk(mb, input, origin(mb, start), nothing) == Some(origin(mb, start)));
    lemma_walk_on(mb, input, origin(mb, start), nothing, 0);
    assert(step(mb, input, origin(mb, start), 0) == Some(at0));
    let one = nothing.push(0);
    lemma_walk_on(mb, input, origin(mb, start), one, 0);
    assert(step(mb, input, at0, 0) == Some(at1));
    let two = one.push(0);
    assert(walk(mb, input, origin(mb, start), two) == Some(at1));
    let edges = mb.graph[1];
    let into = choose|i: int| 0 <= i < edges.len() && edges[i] == (Label::Epsilon, first);
    let out = choose|i: int| 0 <= i < edges.len() && edges[i] == (Label::Epsilon, 3int);
    lemma_walk_on(mb, input, origin(mb, start), two, into);
    lemma_walk_on(mb, input, origin(mb, start), two, out);
    assert(walk(mb, input, origin(mb, start), two.push(into)) == Some(
        Config { state: first, pos: start, caps: none },
    ));
    assert(walk(mb, input, origin(mb, start), two.push(out)) == Some(
        Config { state: 3, pos: start, caps: none },
    ));
}

/// What `e{k}` matches for a `k` from 0 to `m`, `e{0,m}` matches too: for
/// an expression without backreferences, if `e{k}` has a match at `start`,
/// then `e{0,m}` has a match at `start` that ends there or later.
pub proof fn lemma_range_from_zero_holds_count(
    e: ExprView,
    flags: ModeFlags,
    m: u32,
    k: u32,
    lazy: bool,
    input: Seq<char>,
    start: int,
)
    requires
        no_backrefs(e),
        1 <= m,
        k <= m,
        0 <= start <= input.len(),
        match_at(machine_of(count_of(e, k), flags), input, start) is Some,
    ensures
        match_at(machine_of(range_of(e, 0, m, lazy), flags), input, start) is Some,
        match_at(machine_of(range_of(e, 0, m, lazy), flags), input, start)->Some_0.0 >= match_at(
            machine_of(count_of(e, k), flags),
            input,
            start,
        )->Some_0.0,
{
    let names = declared(e);
    let b0 = empty_build();
    let mb = machine_of(range_of(e, 0, m, lazy), flags);
    lemma_whole_zero(e, flags, m, lazy);
    lemma_enter_zero(e, flags, m, lazy, input, start);
    lemma_automaton_plain(range_of(e, 0, m, lazy), flags);
    if k == 0 {
        lemma_zero_times(e, flags, input, start);
        let path = choose|path: Seq<int>| #[trigger]
            walk(mb, input, origin(mb, start), path) == Some(
                Config { state: 3, pos: start, caps: Map::empty() },
            );
        lemma_plain_match_complete(mb, input, start, path);
    } else {
        let ma = machine_of(count_of(e, k), flags);
        assert(declared(count_of(e, k)) == names);
        assert(automaton(count_of(e, k)) == exact(e, names, b0, k as nat));
        let count = repeat(e, names, b0, k as nat);
        assert(ma.graph == count.build.graph);
        let top = range_stage(e, names, 0, lazy, m as nat);
        let mine = range_stage(e, names, 0, lazy, k as nat);
        lemma_stage_zero(e, names, lazy, m as nat);
        lemma_stage_zero(e, names, lazy, k as nat);
        if k < m {
            assert(contained(range_stage(e, names, 0, lazy, k as nat).0, top.0));
            lemma_contained_chain(mine.0, top.0, mb.graph);
            lemma_contained_len(mine.0, top.0);
            lemma_contained_at(top.0, mb.graph, mine.1, (Label::Epsilon, 3int));
        } else {
            lemma_contained_self(top.0);
            lemma_contained_chain(mine.0, top.0, mb.graph);
        }
        lemma_embeds_contained(count.build.graph, mine.0, mb.graph, 0, 4);
        assert(mb.graph[mine.1].contains((Label::Epsilon, 3int)));
        lemma_match_is_walk(ma, input, start);
        let end = match_at(ma, input, start)->Some_0;
        let done = Config { state: ma.accept, pos: end.0, caps: end.1 };
        let path = choose|path: Seq<int>| #[trigger]
            walk(ma, input, origin(ma, start), path) == Some(done);
        lemma_walk_lifted(ma, mb, 0, 4, input, origin(ma, start), path);
        let entered = Config { state: first_copy(e, names), pos: start, caps: Map::empty() };
        assert(entered == Config {
            state: lifted(origin(ma, start).state, 0, 4),
            pos: origin(ma, start).pos,
            caps: origin(ma, start).caps,
        });
        let left = Config { state: lifted(ma.accept, 0, 4), pos: end.0, caps: end.1 };
        let middle = choose|other: Seq<int>| #[trigger] walk(mb, input, entered, other) == Some(left);
        let opening = choose|path: Seq<int>| #[trigger]
            walk(mb, input, origin(mb, start), path) == Some(entered);
        let edges = mb.graph[mine.1];
        let last = choose|i: int| 0 <= i < edges.len() && edges[i] == (Label::Epsilon, 3int);
        lemma_walk_concat(mb, input, origin(mb, start), opening, middle);
        lemma_walk_on(mb, input, origin(mb, start), opening + middle, last);
        assert(step(mb, input, left, last) == Some(Config { state: 3, pos: end.0, caps: end.1 }));
        let full = (opening + middle).push(last);
        assert(walk(mb, input, origin(mb, start), full) == Some(
            Config { state: mb.accept, pos: end.0, caps: end.1 },
        ));
        lemma_plain_match_complete(mb, input, start, full);
    }
}

/// Every edge of a copy in the automaton of the range `e{0,m}` comes from
/// the automaton of `e{m}` or leads from the exit of a count to the exit of
/// the range.
proof fn lemma_whole_zero_covered(e: ExprView, flags: ModeFlags, m: u32, lazy: bool)
    requires
        m >= 1,
    ensures
        covered(
            machine_of(range_of(e, 0, m, lazy), flags).graph,
            repeat(e, declared(e), empty_build(), m as nat).build.graph,
            frame_zero(e, declared(e), lazy, m as nat),
        ),
{
    let names = declared(e);
    let mb = machine_of(range_of(e, 0, m, lazy), flags);
    let top = range_stage(e, names, 0, lazy, m as nat);
    let f = frame_zero(e, names, lazy, m as nat);
    let biggest = repeat(e, names, empty_build(), m as nat);
    lemma_whole_zero(e, flags, m, lazy);
    lemma_stage_zero(e, names, lazy, m as nat);
    lemma_stage_zero_back(e, names, lazy, m as nat);
    let whole = mb.graph;
    assert forall|q: int, j: int|
        0 <= q < whole.len() && inner(q, f.lo, f.hi) && 0 <= j < whole[q].len() implies #[trigger] backed(
        whole,
        biggest.build.graph,
        f,
        q,
        j,
    ) by {
        if q == top.1 && j == top.0[q].len() {
            assert(whole[q][j] == (Label::Epsilon, 3int));
            assert(is_exit(e, names, 0, lazy, 1, m as nat, q)) by {
                assert(range_stage(e, names, 0, lazy, m as nat).1 == q);
            }
        } else {
            assert(whole[q][j] == top.0[q][j]);
            lemma_covered_at(top.0, biggest.build.graph, f, q, j);
        }
    }
    lemma_covered_from(whole, biggest.build.graph, f);
}

/// Where a walk from the entry of the range `e{0,m}` can be: if it ends in
/// the exit of the empty piece, it has consumed nothing; if it ends in a
/// copy, it has gone into the first copy without consuming anything.
proof fn lemma_front_zero(
    e: ExprView,
    flags: ModeFlags,
    m: u32,
    lazy: bool,
    input: Seq<char>,
    start: int,
    pre: Seq<int>,
)
    requires
        m >= 1,
        walk(
            machine_of(range_of(e, 0, m, lazy), flags),
            input,
            origin(machine_of(range_of(e, 0, m, lazy), flags), start),
            pre,
        ) is Some,
    ensures
        ({
            let mb = machine_of(range_of(e, 0, m, lazy), flags);
            let end = walk(mb, input, origin(mb, start), pre)->Some_0;
            let entered = Config {
                state: first_copy(e, declared(e)),
                pos: start,
                caps: Map::<u32, (usize, usize)>::empty(),
            };
            &&& end.state == 1 ==> end.pos == start
            &&& inner(end.state, 0, 4) ==> exists|middle: Seq<int>| #[trigger]
                walk(mb, input, entered, middle) == Some(end)
        }),
{
    let names = declared(e);
    let mb = machine_of(range_of(e, 0, m, lazy), flags);
    let end = walk(mb, input, origin(mb, start), pre)->Some_0;
    let none = Map::<u32, (usize, usize)>::empty();
    let first = first_copy(e, names);
    let entered = Config { state: first, pos: start, caps: none };
    let full = Machine {
        graph: repeat(e, names, empty_build(), m as nat).build.graph,
        start: 0,
        accept: 0,
        names: mb.names,
        flags: mb.flags,
    };
    lemma_whole_zero(e, flags, m, lazy);
    lemma_whole_zero_covered(e, flags, m, lazy);
    lemma_stage_zero_back(e, names, lazy, m as nat);
    let f = frame_zero(e, names, lazy, m as nat);
    let at0 = Config { state: 0, pos: start, caps: none };
    let at1 = Config { state: 1, pos: start, caps: none };
    if end.state == 1 || inner(end.state, 0, 4) {
        assert(pre.len() > 0);
        lemma_walk_front(mb, input, origin(mb, start), pre);
        assert(step(mb, input, origin(mb, start), pre[0]) == Some(at0));
        let rest1 = pre.drop_first();
        assert(rest1.len() > 0);
        lemma_walk_front(mb, input, at0, rest1);
        assert(step(mb, input, at0, rest1[0]) == Some(at1));
        let rest2 = rest1.drop_first();
        if rest2.len() > 0 {
            lemma_walk_front(mb, input, at1, rest2);
            let next = step(mb, input, at1, rest2[0])->Some_0;
            let edge = mb.graph[1][rest2[0]];
            assert(edge == (Label::Epsilon, first) || edge == (Label::Epsilon, 3int));
            let rest3 = rest2.drop_first();
            if next.state == 3 {
                if rest3.len() > 0 {
                    lemma_walk_front(mb, input, next, rest3);
                }
                assert(false);
            }
            assert(next == entered);
            assert(walk(mb, input, entered, rest3) == Some(end));
            if end.state == 1 {
                lemma_walk_lowered(mb, full, f, input, entered, rest3);
                assert(false);
            }
        }
    }
}

/// What `e{0,m}` matches, `e{k}` matches for a `k` from 0 to `m`: for an
/// expression without backreferences, if `e{0,m}` has a match at `start`,
/// then for some such `k` the pattern `e{k}` has a match at `start` that
/// ends there or later.
pub proof fn lemma_range_from_zero_is_some_count(
    e: ExprView,
    flags: ModeFlags,
    m: u32,
    lazy: bool,
    input: Seq<char>,
    start: int,
) -> (k: u32)
    requires
        no_backrefs(e),
        1 <= m,
        0 <= start <= input.len(),
        match_at(machine_of(range_of(e, 0, m, lazy), flags), input, start) is Some,
    ensures
        k <= m,
        match_at(machine_of(count_of(e, k), flags), input, start) is Some,
        match_at(machine_of(count_of(e, k), flags), input, start)->Some_0.0 >= match_at(
            machine_of(range_of(e, 0, m, lazy), flags),
            input,
            start,
        )->Some_0.0,
{
    let names = declared(e);
    let b0 = empty_build();
    let mb = machine_of(range_of(e, 0, m, lazy), flags);
    let full = machine_of(count_of(e, m), flags);
    assert(declared(count_of(e, m)) == names);
    assert(automaton(count_of(e, m)) == exact(e, names, b0, m as nat));
    let biggest = repeat(e, names, b0, m as nat);
    assert(full.graph == biggest.build.graph);
    let f = frame_zero(e, names, lazy, m as nat);
    lemma_whole_zero(e, flags, m, lazy);
    lemma_whole_zero_covered(e, flags, m, lazy);
    lemma_stage_zero(e, names, lazy, m as nat);
    lemma_stage_zero_back(e, names, lazy, m as nat);
    let whole = mb.graph;
    lemma_match_is_walk(mb, input, start);
    let end = match_at(mb, input, start)->Some_0;
    let done = Config { state: 3, pos: end.0, caps: end.1 };
    let path = choose|path: Seq<int>| #[trigger] walk(mb, input, origin(mb, start), path) == Some(done);
    assert(path.len() > 0);
    let pre = path.drop_last();
    let before = walk(mb, input, origin(mb, start), pre)->Some_0;
    let last = path.last();
    assert(step(mb, input, before, last) == Some(done));
    assert(0 <= before.state < whole.len());
    assert(before.state != 3);
    assert(before.state != 2) by {
        if before.state == 2 {
            assert(whole[2][last] == (Label::Epsilon, 0int));
        }
    }
    assert(before.state != 0) by {
        if before.state == 0 {
            assert(whole[0][last] == (Label::Epsilon, 1int));
        }
    }
    lemma_front_zero(e, flags, m, lazy, input, start, pre);
    if before.state == 1 {
        let edge = whole[1][last];
        assert(edge == (Label::Epsilon, first_copy(e, names)) || edge == (Label::Epsilon, 3int));
        assert(end.0 == start);
        lemma_zero_times(e, flags, input, start);
        0
    } else {
        assert(inner(before.state, 0, 4));
        lemma_covered_at(whole, biggest.build.graph, f, before.state, last);
        assert(whole[before.state][last].1 == 3);
        assert(is_exit(e, names, 0, lazy, 1, m as nat, before.state));
        let i = choose|i: nat|
            1 <= i <= m as nat && (#[trigger] range_stage(e, names, 0, lazy, i)).1 == before.state;
        let k = i as u32;
        lemma_stage_zero(e, names, lazy, i);
        let mine = repeat(e, names, b0, i);
        assert(lowered(before.state, 0, 4) == mine.accept);
        let entered = Config {
            state: first_copy(e, names),
            pos: start,
            caps: Map::<u32, (usize, usize)>::empty(),
        };
        let middle = choose|middle: Seq<int>| #[trigger] walk(mb, input, entered, middle) == Some(before);
        lemma_walk_lowered(mb, full, f, input, entered, middle);
        let reached = Config { state: mine.accept, pos: before.pos, caps: before.caps };
        let other = choose|other: Seq<int>| #[trigger]
            walk(
                full,
                input,
                Config { state: lowered(entered.state, f.lo, f.hi), pos: entered.pos, caps: entered.caps },
                other,
            ) == Some(
                Config { state: lowered(before.state, f.lo, f.hi), pos: before.pos, caps: before.caps },
            );
        assert(lowered(entered.state, 0, 4) == biggest.start);
        assert(origin(full, start) == Config {
            state: lowered(entered.state, f.lo, f.hi),
            pos: entered.pos,
            caps: entered.caps,
        });
        assert(walk(full, input, origin(full, start), other) == Some(reached));
        assert(before.pos == end.0);
        let mk = machine_of(count_of(e, k), flags);
        assert(declared(count_of(e, k)) == names);
        assert(automaton(count_of(e, k)) == exact(e, names, b0, k as nat));
        assert(mk.graph == mine.build.graph);
        assert(mk.accept == mine.accept);
        assert(mk.start == biggest.start);
        lemma_automaton_plain(count_of(e, k), flags);
        if i < m {
            lemma_repeat_grows(e, names, i, m as nat);
            lemma_repeat(e, names, b0, m as nat);
            assert(graph_closed(b0.graph));
            lemma_walk_within(mk, full, mine.accept, input, origin(full, start), other);
        }
        assert(origin(mk, start) == origin(full, start));
        assert(walk(mk, input, origin(mk, start), other) == Some(reached));
        lemma_plain_match_complete(mk, input, start, other);
        k
    }
}

/// A counted range matches what its best count matches: for an expression
/// without backreferences and `n < m`, the pattern `e{n,m}` has a match at
/// `start` just when `e{k}` has one for some `k` from `n` to `m`, and its
/// match ends where the longest match of these `e{k}` ends.
pub proof fn lemma_every_range_is_best_count(
    e: ExprView,
    flags: ModeFlags,
    n: u32,
    m: u32,
    lazy: bool,
    input: Seq<char>,
    start: int,
)
    requires
        no_backrefs(e),
        n < m,
        0 <= start <= input.len(),
    ensures
        match_at(machine_of(range_of(e, n, m, lazy), flags), input, start) is Some <==> exists|
            k: u32,
        |
            n <= k <= m && (#[trigger] match_at(machine_of(count_of(e, k), flags), input, start))
                is Some,
        match_at(machine_of(range_of(e, n, m, lazy), flags), input, start) is Some ==> {
            &&& forall|k: u32|
                n <= k <= m && (#[trigger] match_at(machine_of(count_of(e, k), flags), input, start))
                    is Some ==> match_at(machine_of(count_of(e, k), flags), input, start)->Some_0.0
                    <= match_at(machine_of(range_of(e, n, m, lazy), flags), input, start)->Some_0.0
            &&& exists|k: u32|
                n <= k <= m && (#[trigger] match_at(machine_of(count_of(e, k), flags), input, start))
                    is Some && match_at(machine_of(count_of(e, k), flags), input, start)->Some_0.0
                    == match_at(machine_of(range_of(e, n, m, lazy), flags), input, start)->Some_0.0
        },
{
    if n >= 1 {
        lemma_range_is_best_count(e, flags, n, m, lazy, input, start);
    } else {
        let range = match_at(machine_of(range_of(e, 0, m, lazy), flags), input, start);
        assert forall|k: u32|
            k <= m && (#[trigger] match_at(machine_of(count_of(e, k), flags), input, start))
                is Some implies range is Some && match_at(
            machine_of(count_of(e, k), flags),
            input,
            start,
        )->Some_0.0 <= range->Some_0.0 by {
            lemma_range_from_zero_holds_count(e, flags, m, k, lazy, input, start);
        }
        if range is Some {
            let k = lemma_range_from_zero_is_some_count(e, flags, m, lazy, input, start);
            lemma_range_from_zero_holds_count(e, flags, m, k, lazy, input, start);
            assert(match_at(machine_of(count_of(e, k), flags), input, start) is Some);
        }
    }
}

} // verus!
