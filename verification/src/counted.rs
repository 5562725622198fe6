//! What counting the repetitions of an expression means: no repetition
//! matches the empty string and nothing else, and `n` repetitions are the
//! expression `n` times in a row.

use crate::ast::{ExprView, Quantifier};
use crate::engine::{ModeFlags, machine_of};
use crate::groups::{Names, declared, declared_upto};
use crate::pieces::lemma_thompson;
use crate::simulation::{
    Caps, Thread, accepting, closure, closure_run, crosses, due, edges_of, fire_edges,
    fire_threads, first_thread, follow, idle_agenda, lemma_idle, match_at, reversed, run_from,
    stacked,
};
use crate::thompson::{
    Build, Label, automaton, chain, empty_build, exact, pair, repeat, with_edge, with_state,
};
use vstd::prelude::*;

verus! {

/// `e{0}` matches the empty string at every position of every input, and
/// nothing else: whatever `e` is, the match that starts at `start` ends at
/// `start` and has no captures.
pub proof fn lemma_zero_times(e: ExprView, flags: ModeFlags, input: Seq<char>, start: int)
    requires
        0 <= start <= input.len(),
    ensures
        match_at(
            machine_of(
                ExprView::Quantified { expr: Box::new(e), quantifier: Quantifier::Exactly(0) },
                flags,
            ),
            input,
            start,
        ) == Some((start, Map::<u32, (usize, usize)>::empty())),
{
    let ast = ExprView::Quantified { expr: Box::new(e), quantifier: Quantifier::Exactly(0) };
    let m = machine_of(ast, flags);
    let names = declared(ast);
    let base = Build { graph: empty_build().graph, next_group: 1 + declared(e).len() as int };
    assert(automaton(ast) == exact(e, names, empty_build(), 0));
    assert(automaton(ast) == pair(base, Label::Epsilon));
    let g = m.graph;
    assert(g == with_edge(with_state(with_state(base.graph)), 0, Label::Epsilon, 1));
    assert(g.len() == 2);
    assert(g[0] =~= seq![(Label::Epsilon, 1int)]);
    assert(g[1] =~= Seq::empty());
    assert(m.start == 0 && m.accept == 1);
    let none: Caps = Map::empty();
    let first = first_thread(m);
    let second = Thread { state: 1, caps: none };
    let seeds = seq![first];
    let fresh = Seq::new(g.len(), |i: int| false);

    assert(reversed(seeds) =~= seeds) by {
        assert(seeds.drop_first() =~= Seq::<Thread>::empty());
        assert(reversed(seeds.drop_first()) =~= Seq::<Thread>::empty());
    }
    assert(edges_of(m, 0) == g[0]);
    assert(edges_of(m, 1) == g[1]);
    assert(follow(m, input, start, first, 0) == Some(second));
    let empty_stack = Seq::<Thread>::empty();
    assert(stacked(m, input, start, first, empty_stack, 1) == empty_stack);
    assert(stacked(m, input, start, first, empty_stack, 0) =~= seq![second]);
    assert(stacked(m, input, start, second, empty_stack, 0) == empty_stack);
    let seen1 = fresh.update(0, true);
    let seen2 = seen1.update(1, true);
    let out1 = Seq::<Thread>::empty().push(first);
    let out2 = out1.push(second);
    assert(seeds.last() == first);
    assert(seeds.drop_last() =~= empty_stack);
    assert(seq![second].last() == second);
    assert(seq![second].drop_last() =~= empty_stack);
    assert(closure_run(m, input, start, empty_stack, seen2, out2) == out2);
    assert(closure_run(m, input, start, seq![second], seen1, out1) == out2);
    assert(closure_run(m, input, start, seeds, fresh, Seq::empty()) == out2);
    let threads = closure(m, input, start, seeds);
    assert(threads == out2);
    assert(threads.len() == 2 && threads[0] == first && threads[1] == second);
    assert(accepting(m, threads, 2) is None);
    assert(accepting(m, threads, 1) == Some(none));
    assert(accepting(m, threads, 0) == Some(none));

    let idle = idle_agenda(input);
    assert(crosses(m, input, start, Label::Epsilon, none) == Some((0int, none)));
    assert(fire_edges(m, input, start, first, 1, idle) == idle);
    assert(fire_edges(m, input, start, first, 0, idle) == idle);
    assert(fire_edges(m, input, start, second, 0, idle) == idle);
    assert(fire_threads(m, input, start, threads, 2, idle) == idle);
    assert(fire_threads(m, input, start, threads, 1, idle) == idle);
    assert(fire_threads(m, input, start, threads, 0, idle) == idle);
    let better = Some((start, none));
    assert forall|p: int| start + 1 <= p implies due(idle, p).len() == 0 by {}
    lemma_idle(m, input, start + 1, idle, better);
    assert(run_from(m, input, start, seeds, idle, None) == run_from(
        m,
        input,
        start + 1,
        due(idle, start + 1),
        idle,
        better,
    ));
}

/// `n` times the expression `e`.
pub open spec fn copies(e: ExprView, n: nat) -> Seq<ExprView> {
    Seq::new(n, |i: int| e)
}

proof fn lemma_repeat_is_chain(e: ExprView, names: Names, b: Build, n: nat, k: nat)
    requires
        declared(e).len() == 0,
        1 <= k <= n,
    ensures
        repeat(e, names, b, k) == chain(copies(e, n), names, b, k),
        repeat(e, names, b, k).build.next_group == b.next_group,
    decreases k,
{
    let es = copies(e, n);
    if k == 1 {
        lemma_thompson(e, names, b);
    } else {
        lemma_repeat_is_chain(e, names, b, n, (k - 1) as nat);
        let p = repeat(e, names, b, (k - 1) as nat);
        let again = Build { graph: p.build.graph, next_group: b.next_group };
        assert(again == p.build);
        lemma_thompson(e, names, again);
        assert(es[k - 1] == e);
    }
}

proof fn lemma_copies_declare_nothing(e: ExprView, n: nat, k: nat)
    requires
        declared(e).len() == 0,
        k <= n,
    ensures
        declared_upto(copies(e, n), k) == Names::empty(),
    decreases k,
{
    if k > 0 {
        lemma_copies_declare_nothing(e, n, (k - 1) as nat);
        assert(copies(e, n)[k - 1] == e);
        assert(declared(e) =~= Names::empty());
        assert(declared_upto(copies(e, n), k) =~= Names::empty());
    } else {
        assert(declared_upto(copies(e, n), 0) =~= Names::empty());
    }
}

/// For an expression `e` without groups and `n` of at least 1, `e{n}` is
/// `e` written `n` times in a row: the two patterns have the same
/// automaton, so what the one matches, the other matches.
pub proof fn lemma_exactly_is_sequence(e: ExprView, flags: ModeFlags, n: u32)
    requires
        declared(e).len() == 0,
        n >= 1,
    ensures
        machine_of(
            ExprView::Quantified { expr: Box::new(e), quantifier: Quantifier::Exactly(n) },
            flags,
        ) == machine_of(ExprView::Sequence(copies(e, n as nat)), flags),
{
    let counted = ExprView::Quantified { expr: Box::new(e), quantifier: Quantifier::Exactly(n) };
    let written = ExprView::Sequence(copies(e, n as nat));
    lemma_copies_declare_nothing(e, n as nat, n as nat);
    assert(declared(counted) == declared(e));
    assert(declared(e) =~= Names::empty());
    assert(declared(written) == declared_upto(copies(e, n as nat), n as nat));
    let names = Names::empty();
    lemma_repeat_is_chain(e, names, empty_build(), n as nat, n as nat);
    assert(automaton(counted) == exact(e, names, empty_build(), n as nat));
    assert(automaton(written) == chain(copies(e, n as nat), names, empty_build(), n as nat));
}

} // verus!
