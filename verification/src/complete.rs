//! Why the simulation misses no match of an automaton without
//! backreferences.
//!
//! In such an automaton every edge either consumes one character or
//! nothing, and whether it can be crossed does not depend on the captures.
//! The threads of the simulation at a position then stand in exactly the
//! states that walks reach at that position, so the simulation accepts at a
//! position whenever a walk does.

use crate::ast::ExprView;
use crate::engine::{ModeFlags, machine_of};
use crate::groups::declared;
use crate::paths::{Config, lemma_match_is_walk, origin, reaches, walk};
use crate::pieces::{is_backref, lemma_thompson, no_backrefs};
use crate::thompson::{automaton, empty_build};
use crate::simulation::{
    Agenda, Caps, Machine, Thread, accepting, at_end, at_start, char_matches, class_matches,
    closure, closure_run, crosses, due, edges_of, fire_edges, fire_threads, first_thread, follow,
    idle_agenda, lemma_unseen_marks, match_at, reversed, run_from, schedule, stacked, unseen,
    word_boundary,
};
use crate::thompson::{Label, graph_closed};
use vstd::prelude::*;

verus! {

/// No edge of `m` is a backreference, every edge leads to a state, and the
/// start state is a state.
pub open spec fn plain(m: Machine) -> bool {
    &&& graph_closed(m.graph)
    &&& 0 <= m.start < m.graph.len()
    &&& forall|s: int, j: int|
        0 <= s < m.graph.len() && 0 <= j < m.graph[s].len() ==> !((#[trigger] m.graph[s][j]).0 is Backref)
            && !(m.graph[s][j].0 is BackrefRelative)
}

/// An edge with the label `label` can be crossed at `pos` without
/// consuming anything.
pub open spec fn passes(m: Machine, input: Seq<char>, pos: int, label: Label) -> bool {
    match label {
        Label::Epsilon => true,
        Label::GroupStart(_) => true,
        Label::GroupEnd(_) => true,
        Label::StartAnchor => at_start(m.flags, input, pos),
        Label::EndAnchor => at_end(m.flags, input, pos),
        Label::WordBoundary => word_boundary(input, pos),
        Label::NonWordBoundary => !word_boundary(input, pos),
        _ => false,
    }
}

/// An edge with the label `label` can be crossed at `pos` by consuming the
/// character there.
pub open spec fn consumes(m: Machine, input: Seq<char>, pos: int, label: Label) -> bool {
    0 <= pos < input.len() && match label {
        Label::Char(wanted) => char_matches(m.flags, wanted, input[pos]),
        Label::Any => m.flags.dotall || input[pos] != '\n',
        Label::Class { negated, items } => class_matches(m.flags, negated, items, input[pos]),
        _ => false,
    }
}

/// A thread of `threads` is in the state `q`.
pub open spec fn has_state(threads: Seq<Thread>, q: int) -> bool {
    exists|i: int| 0 <= i < threads.len() && (#[trigger] threads[i]).state == q
}

/// A label that is no backreference is crossed by passing or by consuming
/// one character, whatever the captures.
pub proof fn lemma_plain_crossing(m: Machine, input: Seq<char>, pos: int, label: Label, caps: Caps)
    requires
        !(label is Backref),
        !(label is BackrefRelative),
    ensures
        match crosses(m, input, pos, label, caps) {
            Some((n, _)) => (n == 0 && passes(m, input, pos, label)) || (n == 1 && consumes(
                m,
                input,
                pos,
                label,
            )),
            None => !passes(m, input, pos, label) && !consumes(m, input, pos, label),
        },
        !(passes(m, input, pos, label) && consumes(m, input, pos, label)),
{
}

/// A walk only moves forward.
pub proof fn lemma_walk_forward(m: Machine, input: Seq<char>, c: Config, path: Seq<int>)
    requires
        walk(m, input, c, path) is Some,
    ensures
        walk(m, input, c, path)->Some_0.pos >= c.pos,
        path.len() > 0 ==> walk(m, input, c, path.drop_last()) is Some && walk(
            m,
            input,
            c,
            path.drop_last(),
        )->Some_0.pos <= walk(m, input, c, path)->Some_0.pos,
    decreases path.len(),
{
    if path.len() > 0 {
        lemma_walk_forward(m, input, c, path.drop_last());
        let before = walk(m, input, c, path.drop_last())->Some_0;
        let (label, to) = edges_of(m, before.state)[path.last()];
        match crosses(m, input, before.pos, label, before.caps) {
            Some((n, caps)) => {
                lemma_crossing_forward(m, input, before.pos, label, before.caps);
            },
            None => {},
        }
    }
}

/// No crossing moves backward.
pub proof fn lemma_crossing_forward(m: Machine, input: Seq<char>, pos: int, label: Label, caps: Caps)
    ensures
        crosses(m, input, pos, label, caps) is Some ==> crosses(m, input, pos, label, caps)->Some_0.0
            >= 0,
{
}

proof fn lemma_has_state_push(threads: Seq<Thread>, t: Thread, q: int)
    ensures
        has_state(threads.push(t), q) <==> (has_state(threads, q) || t.state == q),
{
    let longer = threads.push(t);
    if has_state(threads, q) {
        let i = choose|i: int| 0 <= i < threads.len() && (#[trigger] threads[i]).state == q;
        assert(longer[i].state == q);
    }
    if t.state == q {
        assert(longer[threads.len() as int].state == q);
    }
    if has_state(longer, q) {
        let i = choose|i: int| 0 <= i < longer.len() && (#[trigger] longer[i]).state == q;
        if i < threads.len() {
            assert(threads[i].state == q);
        }
    }
}

/// What `stacked` puts on the stack: what was below, and a thread behind
/// every edge that passes.
proof fn lemma_stacked_states(
    m: Machine,
    input: Seq<char>,
    pos: int,
    t: Thread,
    below: Seq<Thread>,
    j: int,
)
    requires
        plain(m),
        0 <= t.state < m.graph.len(),
        0 <= j,
    ensures
        forall|q: int| has_state(below, q) ==> has_state(stacked(m, input, pos, t, below, j), q),
        forall|k: int|
            j <= k < m.graph[t.state].len() && passes(m, input, pos, (#[trigger] m.graph[t.state][k]).0)
                ==> has_state(stacked(m, input, pos, t, below, j), m.graph[t.state][k].1),
    decreases m.graph[t.state].len() - j,
{
    if j < edges_of(m, t.state).len() {
        lemma_stacked_states(m, input, pos, t, below, j + 1);
        let rest = stacked(m, input, pos, t, below, j + 1);
        let (label, to) = m.graph[t.state][j];
        lemma_plain_crossing(m, input, pos, label, t.caps);
        let all = stacked(m, input, pos, t, below, j);
        match follow(m, input, pos, t, j) {
            Some(next) => {
                assert(all == rest.push(next));
                assert forall|q: int| has_state(rest, q) implies has_state(all, q) by {
                    lemma_has_state_push(rest, next, q);
                }
                lemma_has_state_push(rest, next, to);
            },
            None => {},
        }
    }
}

/// The threads of a closure run stand in every state of `out`, in every
/// state of the stack, and in every state behind a passing edge of any of
/// their states.
proof fn lemma_closure_run_complete(
    m: Machine,
    input: Seq<char>,
    pos: int,
    stack: Seq<Thread>,
    seen: Seq<bool>,
    out: Seq<Thread>,
)
    requires
        plain(m),
        seen.len() == m.graph.len(),
        forall|q: int| 0 <= q < seen.len() ==> (seen[q] <==> has_state(out, q)),
        forall|q: int| has_state(out, q) ==> 0 <= q < seen.len(),
        forall|q: int, k: int|
            0 <= q < seen.len() && seen[q] && 0 <= k < m.graph[q].len() && passes(
                m,
                input,
                pos,
                (#[trigger] m.graph[q][k]).0,
            ) ==> seen[m.graph[q][k].1] || has_state(stack, m.graph[q][k].1),
    ensures
        forall|q: int| has_state(out, q) ==> has_state(closure_run(m, input, pos, stack, seen, out), q),
        forall|q: int|
            0 <= q < seen.len() && has_state(stack, q) ==> has_state(
                closure_run(m, input, pos, stack, seen, out),
                q,
            ),
        forall|q: int, k: int|
            has_state(closure_run(m, input, pos, stack, seen, out), q) && 0 <= q < m.graph.len() && 0
                <= k < m.graph[q].len() && passes(m, input, pos, (#[trigger] m.graph[q][k]).0)
                ==> has_state(closure_run(m, input, pos, stack, seen, out), m.graph[q][k].1),
        forall|q: int|
            has_state(closure_run(m, input, pos, stack, seen, out), q) ==> 0 <= q < m.graph.len(),
    decreases unseen(seen), stack.len(),
{
    let result = closure_run(m, input, pos, stack, seen, out);
    if stack.len() == 0 {
        assert(result == out);
        assert forall|q: int, k: int|
            has_state(result, q) && 0 <= q < m.graph.len() && 0 <= k < m.graph[q].len() && passes(
                m,
                input,
                pos,
                (#[trigger] m.graph[q][k]).0,
            ) implies has_state(result, m.graph[q][k].1) by {
            let to = m.graph[q][k].1;
            assert(seen[q]);
            if has_state(stack, to) {
                let i = choose|i: int| 0 <= i < stack.len() && (#[trigger] stack[i]).state == to;
            }
        }
    } else {
        let t = stack.last();
        let rest = stack.drop_last();
        assert(stack =~= rest.push(t));
        assert forall|q: int| has_state(stack, q) <==> (has_state(rest, q) || t.state == q) by {
            lemma_has_state_push(rest, t, q);
        }
        if t.state < 0 || t.state >= seen.len() || seen[t.state] {
            lemma_closure_run_complete(m, input, pos, rest, seen, out);
            assert(result == closure_run(m, input, pos, rest, seen, out));
        } else {
            lemma_unseen_marks(seen, t.state);
            let seen2 = seen.update(t.state, true);
            let out2 = out.push(t);
            let stack2 = stacked(m, input, pos, t, rest, 0);
            lemma_stacked_states(m, input, pos, t, rest, 0);
            assert forall|q: int| has_state(out2, q) <==> (has_state(out, q) || t.state == q) by {
                lemma_has_state_push(out, t, q);
            }
            assert forall|q: int, k: int|
                0 <= q < seen2.len() && seen2[q] && 0 <= k < m.graph[q].len() && passes(
                    m,
                    input,
                    pos,
                    (#[trigger] m.graph[q][k]).0,
                ) implies seen2[m.graph[q][k].1] || has_state(stack2, m.graph[q][k].1) by {
                let to = m.graph[q][k].1;
                assert(0 <= to < m.graph.len());
                if q != t.state {
                    assert(seen[q]);
                    if !seen[to] {
                        assert(has_state(stack, to));
                    }
                }
            }
            lemma_closure_run_complete(m, input, pos, stack2, seen2, out2);
            assert(result == closure_run(m, input, pos, stack2, seen2, out2));
        }
    }
}

proof fn lemma_reversed_states(threads: Seq<Thread>, q: int)
    ensures
        has_state(reversed(threads), q) <==> has_state(threads, q),
    decreases threads.len(),
{
    if threads.len() > 0 {
        let tail = threads.drop_first();
        lemma_reversed_states(tail, q);
        lemma_has_state_push(reversed(tail), threads[0], q);
        if has_state(threads, q) {
            let i = choose|i: int| 0 <= i < threads.len() && (#[trigger] threads[i]).state == q;
            if i > 0 {
                assert(tail[i - 1].state == q);
            }
        }
        if has_state(tail, q) {
            let i = choose|i: int| 0 <= i < tail.len() && (#[trigger] tail[i]).state == q;
            assert(threads[i + 1].state == q);
        }
    } else {
        if has_state(reversed(threads), q) {
            let i = choose|i: int|
                0 <= i < reversed(threads).len() && (#[trigger] reversed(threads)[i]).state == q;
        }
    }
}

/// The threads of a closure stand in the states of the seeds and in every
/// state behind a passing edge of any of their states.
pub proof fn lemma_closure_complete(m: Machine, input: Seq<char>, pos: int, seeds: Seq<Thread>)
    requires
        plain(m),
    ensures
        forall|q: int|
            0 <= q < m.graph.len() && has_state(seeds, q) ==> has_state(
                closure(m, input, pos, seeds),
                q,
            ),
        forall|q: int, k: int|
            has_state(closure(m, input, pos, seeds), q) && 0 <= q < m.graph.len() && 0 <= k
                < m.graph[q].len() && passes(m, input, pos, (#[trigger] m.graph[q][k]).0)
                ==> has_state(closure(m, input, pos, seeds), m.graph[q][k].1),
        forall|q: int| has_state(closure(m, input, pos, seeds), q) ==> 0 <= q < m.graph.len(),
{
    let fresh = Seq::new(m.graph.len(), |i: int| false);
    let nothing = Seq::<Thread>::empty();
    assert forall|q: int| !has_state(nothing, q) by {
        if has_state(nothing, q) {
            let i = choose|i: int| 0 <= i < nothing.len() && (#[trigger] nothing[i]).state == q;
        }
    }
    lemma_closure_run_complete(m, input, pos, reversed(seeds), fresh, nothing);
    assert forall|q: int| 0 <= q < m.graph.len() && has_state(seeds, q) implies has_state(
        closure(m, input, pos, seeds),
        q,
    ) by {
        lemma_reversed_states(seeds, q);
    }
}

/// What firing the edges of a thread leaves on the agenda: what was on it,
/// and a thread behind every edge that consumes.
proof fn lemma_fire_edges_complete(
    m: Machine,
    input: Seq<char>,
    pos: int,
    t: Thread,
    j: int,
    agenda: Agenda,
)
    requires
        plain(m),
        0 <= t.state < m.graph.len(),
        0 <= j,
        0 <= pos,
        agenda.len() == input.len(),
    ensures
        fire_edges(m, input, pos, t, j, agenda).len() == agenda.len(),
        forall|p: int, q: int|
            has_state(due(agenda, p), q) ==> #[trigger] has_state(
                due(fire_edges(m, input, pos, t, j, agenda), p),
                q,
            ),
        forall|k: int|
            j <= k < m.graph[t.state].len() && consumes(
                m,
                input,
                pos,
                (#[trigger] m.graph[t.state][k]).0,
            ) ==> has_state(
                due(fire_edges(m, input, pos, t, j, agenda), pos + 1),
                m.graph[t.state][k].1,
            ),
    decreases m.graph[t.state].len() - j,
{
    let result = fire_edges(m, input, pos, t, j, agenda);
    if j < edges_of(m, t.state).len() {
        let (label, to) = m.graph[t.state][j];
        lemma_plain_crossing(m, input, pos, label, t.caps);
        let next = match crosses(m, input, pos, label, t.caps) {
            Some((n, caps)) => if n > 0 {
                schedule(agenda, pos + n, Thread { state: to, caps })
            } else {
                agenda
            },
            None => agenda,
        };
        assert(result == fire_edges(m, input, pos, t, j + 1, next));
        lemma_fire_edges_complete(m, input, pos, t, j + 1, next);
        assert forall|p: int, q: int| has_state(due(agenda, p), q) implies #[trigger] has_state(
            due(next, p),
            q,
        ) by {
            if next != agenda {
                let fresh = Thread { state: to, caps: crosses(m, input, pos, label, t.caps)->Some_0.1 };
                if p == pos + 1 {
                    lemma_has_state_push(agenda[p - 1], fresh, q);
                }
            }
        }
        assert forall|p: int, q: int| has_state(due(agenda, p), q) implies #[trigger] has_state(
            due(result, p),
            q,
        ) by {
            assert(has_state(due(next, p), q));
        }
        if consumes(m, input, pos, label) {
            let fresh = Thread { state: to, caps: crosses(m, input, pos, label, t.caps)->Some_0.1 };
            assert(next == schedule(agenda, pos + 1, fresh));
            lemma_has_state_push(agenda[pos], fresh, to);
            assert(has_state(due(next, pos + 1), to));
            assert(has_state(due(result, pos + 1), to));
        }
    }
}

/// What firing the threads of a list leaves on the agenda: what was on it,
/// and a thread behind every consuming edge of every thread.
proof fn lemma_fire_threads_complete(
    m: Machine,
    input: Seq<char>,
    pos: int,
    threads: Seq<Thread>,
    i: int,
    agenda: Agenda,
)
    requires
        plain(m),
        forall|q: int| has_state(threads, q) ==> 0 <= q < m.graph.len(),
        0 <= i,
        0 <= pos,
        agenda.len() == input.len(),
    ensures
        fire_threads(m, input, pos, threads, i, agenda).len() == agenda.len(),
        forall|p: int, q: int|
            has_state(due(agenda, p), q) ==> #[trigger] has_state(
                due(fire_threads(m, input, pos, threads, i, agenda), p),
                q,
            ),
        forall|n: int, k: int|
            i <= n < threads.len() && 0 <= k < m.graph[threads[n].state].len() && consumes(
                m,
                input,
                pos,
                (#[trigger] m.graph[threads[n].state][k]).0,
            ) ==> has_state(
                due(fire_threads(m, input, pos, threads, i, agenda), pos + 1),
                m.graph[threads[n].state][k].1,
            ),
    decreases threads.len() - i,
{
    let result = fire_threads(m, input, pos, threads, i, agenda);
    if i < threads.len() {
        let t = threads[i];
        assert(has_state(threads, t.state));
        let next = fire_edges(m, input, pos, t, 0, agenda);
        lemma_fire_edges_complete(m, input, pos, t, 0, agenda);
        lemma_fire_threads_complete(m, input, pos, threads, i + 1, next);
        assert(result == fire_threads(m, input, pos, threads, i + 1, next));
        assert forall|p: int, q: int| has_state(due(agenda, p), q) implies #[trigger] has_state(
            due(result, p),
            q,
        ) by {
            assert(has_state(due(next, p), q));
        }
        assert forall|n: int, k: int|
            i <= n < threads.len() && 0 <= k < m.graph[threads[n].state].len() && consumes(
                m,
                input,
                pos,
                (#[trigger] m.graph[threads[n].state][k]).0,
            ) implies has_state(due(result, pos + 1), m.graph[threads[n].state][k].1) by {
            assert(has_state(threads, threads[n].state));
            if n == i {
                assert(has_state(due(next, pos + 1), m.graph[t.state][k].1));
            }
        }
    }
}

/// A list with a thread in the accepting state accepts.
proof fn lemma_accepting_complete(m: Machine, threads: Seq<Thread>, i: int)
    requires
        0 <= i,
        exists|n: int| i <= n < threads.len() && (#[trigger] threads[n]).state == m.accept,
    ensures
        accepting(m, threads, i) is Some,
    decreases threads.len() - i,
{
    if i < threads.len() && threads[i].state != m.accept {
        let n = choose|n: int| i <= n < threads.len() && (#[trigger] threads[n]).state == m.accept;
        assert(i + 1 <= n);
        lemma_accepting_complete(m, threads, i + 1);
    }
}

/// No crossing leaves the input.
pub proof fn lemma_crossing_in_input(m: Machine, input: Seq<char>, pos: int, label: Label, caps: Caps)
    requires
        0 <= pos <= input.len(),
    ensures
        crosses(m, input, pos, label, caps) is Some ==> 0 <= pos + crosses(
            m,
            input,
            pos,
            label,
            caps,
        )->Some_0.0 <= input.len(),
{
}

/// A walk that starts in the input stays in it.
pub proof fn lemma_walk_in_input(m: Machine, input: Seq<char>, c: Config, path: Seq<int>)
    requires
        0 <= c.pos <= input.len(),
        walk(m, input, c, path) is Some,
    ensures
        c.pos <= walk(m, input, c, path)->Some_0.pos <= input.len(),
    decreases path.len(),
{
    if path.len() > 0 {
        lemma_walk_forward(m, input, c, path);
        lemma_walk_in_input(m, input, c, path.drop_last());
        let before = walk(m, input, c, path.drop_last())->Some_0;
        let (label, to) = edges_of(m, before.state)[path.last()];
        lemma_crossing_in_input(m, input, before.pos, label, before.caps);
    }
}

/// The threads `threads` stand in every state that a walk of the attempt at
/// `start` reaches at `pos`.
pub open spec fn covers(
    m: Machine,
    input: Seq<char>,
    start: int,
    pos: int,
    threads: Seq<Thread>,
) -> bool {
    forall|path: Seq<int>|
        (#[trigger] walk(m, input, origin(m, start), path)) is Some && walk(
            m,
            input,
            origin(m, start),
            path,
        )->Some_0.pos == pos ==> has_state(threads, walk(m, input, origin(m, start), path)->Some_0.state)
}

/// The closure of the first thread stands in every state that a walk
/// reaches without consuming anything.
proof fn lemma_first_covered(m: Machine, input: Seq<char>, start: int, path: Seq<int>)
    requires
        plain(m),
        0 <= start <= input.len(),
        walk(m, input, origin(m, start), path) is Some,
        walk(m, input, origin(m, start), path)->Some_0.pos == start,
    ensures
        has_state(
            closure(m, input, start, seq![first_thread(m)]),
            walk(m, input, origin(m, start), path)->Some_0.state,
        ),
    decreases path.len(),
{
    let seeds = seq![first_thread(m)];
    let threads = closure(m, input, start, seeds);
    lemma_closure_complete(m, input, start, seeds);
    if path.len() == 0 {
        assert(seeds[0].state == m.start);
        assert(has_state(seeds, m.start));
    } else {
        lemma_walk_forward(m, input, origin(m, start), path);
        lemma_walk_forward(m, input, origin(m, start), path.drop_last());
        let before = walk(m, input, origin(m, start), path.drop_last())->Some_0;
        lemma_first_covered(m, input, start, path.drop_last());
        let j = path.last();
        let (label, to) = m.graph[before.state][j];
        lemma_plain_crossing(m, input, before.pos, label, before.caps);
        assert(passes(m, input, start, m.graph[before.state][j].0));
    }
}

/// The closure of what is due at `pos` stands in every state that a walk
/// reaches at `pos`, if the threads at the position before stood in every
/// state that a walk reaches there and everything that they consume is due.
proof fn lemma_next_covered(
    m: Machine,
    input: Seq<char>,
    start: int,
    pos: int,
    before: Seq<Thread>,
    seeds: Seq<Thread>,
    path: Seq<int>,
)
    requires
        plain(m),
        0 <= start < pos <= input.len(),
        covers(m, input, start, pos - 1, before),
        forall|q: int| has_state(before, q) ==> 0 <= q < m.graph.len(),
        forall|q: int, k: int|
            has_state(before, q) && 0 <= k < m.graph[q].len() && consumes(
                m,
                input,
                pos - 1,
                (#[trigger] m.graph[q][k]).0,
            ) ==> has_state(seeds, m.graph[q][k].1),
        walk(m, input, origin(m, start), path) is Some,
        walk(m, input, origin(m, start), path)->Some_0.pos == pos,
    ensures
        has_state(
            closure(m, input, pos, seeds),
            walk(m, input, origin(m, start), path)->Some_0.state,
        ),
    decreases path.len(),
{
    lemma_closure_complete(m, input, pos, seeds);
    if path.len() > 0 {
        lemma_walk_forward(m, input, origin(m, start), path);
        let earlier = walk(m, input, origin(m, start), path.drop_last())->Some_0;
        let j = path.last();
        lemma_walk_in_input(m, input, origin(m, start), path.drop_last());
        if earlier.pos == pos {
            lemma_next_covered(m, input, start, pos, before, seeds, path.drop_last());
            let (label, to) = m.graph[earlier.state][j];
            lemma_plain_crossing(m, input, earlier.pos, label, earlier.caps);
            assert(passes(m, input, pos, m.graph[earlier.state][j].0));
        } else {
            assert(has_state(before, earlier.state)) by {
                if 0 <= earlier.state < m.graph.len() {
                    let (label, to) = m.graph[earlier.state][j];
                    lemma_plain_crossing(m, input, earlier.pos, label, earlier.caps);
                }
            }
            let (label, to) = m.graph[earlier.state][j];
            lemma_plain_crossing(m, input, earlier.pos, label, earlier.caps);
            assert(consumes(m, input, pos - 1, m.graph[earlier.state][j].0));
            assert(has_state(seeds, to));
        }
    }
}

/// The run accepts at least as late as any walk that it has not passed yet.
proof fn lemma_run_complete(
    m: Machine,
    input: Seq<char>,
    start: int,
    pos: int,
    current: Seq<Thread>,
    agenda: Agenda,
    best: Option<(int, Caps)>,
    path: Seq<int>,
)
    requires
        plain(m),
        0 <= start <= pos,
        start <= input.len(),
        agenda.len() == input.len(),
        pos <= input.len() ==> covers(m, input, start, pos, closure(m, input, pos, current)),
        walk(m, input, origin(m, start), path) is Some,
        walk(m, input, origin(m, start), path)->Some_0.state == m.accept,
        pos <= walk(m, input, origin(m, start), path)->Some_0.pos,
    ensures
        run_from(m, input, pos, current, agenda, best) is Some,
        run_from(m, input, pos, current, agenda, best)->Some_0.0 >= walk(
            m,
            input,
            origin(m, start),
            path,
        )->Some_0.pos,
    decreases input.len() + 1 - pos,
{
    let end = walk(m, input, origin(m, start), path)->Some_0;
    lemma_walk_in_input(m, input, origin(m, start), path);
    let threads = closure(m, input, pos, current);
    lemma_closure_complete(m, input, pos, current);
    let better = match accepting(m, threads, 0) {
        Some(caps) => Some((pos, caps)),
        None => best,
    };
    let later = fire_threads(m, input, pos, threads, 0, agenda);
    lemma_fire_threads_complete(m, input, pos, threads, 0, agenda);
    let seeds = due(later, pos + 1);
    if end.pos == pos {
        assert(has_state(threads, m.accept));
        lemma_accepting_complete(m, threads, 0);
        lemma_run_keeps(m, input, pos + 1, seeds, later, better);
    } else {
        assert forall|other: Seq<int>|
            (#[trigger] walk(m, input, origin(m, start), other)) is Some && walk(
                m,
                input,
                origin(m, start),
                other,
            )->Some_0.pos == pos + 1 implies has_state(
            closure(m, input, pos + 1, seeds),
            walk(m, input, origin(m, start), other)->Some_0.state,
        ) by {
            lemma_next_covered(m, input, start, pos + 1, threads, seeds, other);
        }
        lemma_run_complete(m, input, start, pos + 1, seeds, later, better, path);
    }
}

/// The run never accepts earlier than the best that it starts with.
proof fn lemma_run_keeps(
    m: Machine,
    input: Seq<char>,
    pos: int,
    current: Seq<Thread>,
    agenda: Agenda,
    best: Option<(int, Caps)>,
)
    requires
        best is Some,
        best->Some_0.0 <= pos,
    ensures
        run_from(m, input, pos, current, agenda, best) is Some,
        run_from(m, input, pos, current, agenda, best)->Some_0.0 >= best->Some_0.0,
    decreases input.len() + 1 - pos,
{
    if 0 <= pos <= input.len() {
        let threads = closure(m, input, pos, current);
        let better = match accepting(m, threads, 0) {
            Some(caps) => Some((pos, caps)),
            None => best,
        };
        let later = fire_threads(m, input, pos, threads, 0, agenda);
        lemma_run_keeps(m, input, pos + 1, due(later, pos + 1), later, better);
    }
}

/// In an automaton without backreferences the simulation accepts whenever a
/// walk does, and at least as late: if a walk leads from the start state at
/// `start` to the accepting state, there is a match at `start`, and it ends
/// where the walk ends or later.
pub proof fn lemma_plain_match_complete(m: Machine, input: Seq<char>, start: int, path: Seq<int>)
    requires
        plain(m),
        0 <= start <= input.len(),
        walk(m, input, origin(m, start), path) is Some,
        walk(m, input, origin(m, start), path)->Some_0.state == m.accept,
    ensures
        match_at(m, input, start) is Some,
        match_at(m, input, start)->Some_0.0 >= walk(m, input, origin(m, start), path)->Some_0.pos,
{
    let seeds = seq![first_thread(m)];
    assert forall|other: Seq<int>|
        (#[trigger] walk(m, input, origin(m, start), other)) is Some && walk(
            m,
            input,
            origin(m, start),
            other,
        )->Some_0.pos == start implies has_state(
        closure(m, input, start, seeds),
        walk(m, input, origin(m, start), other)->Some_0.state,
    ) by {
        lemma_first_covered(m, input, start, other);
    }
    lemma_walk_forward(m, input, origin(m, start), path);
    lemma_run_complete(m, input, start, start, seeds, idle_agenda(input), None, path);
}

/// In an automaton without backreferences there is a match at `start` just
/// when a walk leads from the start state at `start` to the accepting
/// state, and the match ends where the longest such walk ends.
pub proof fn lemma_plain_match_is_longest_walk(m: Machine, input: Seq<char>, start: int)
    requires
        plain(m),
        0 <= start <= input.len(),
    ensures
        match_at(m, input, start) is Some <==> exists|path: Seq<int>|
            (#[trigger] walk(m, input, origin(m, start), path)) is Some && walk(
                m,
                input,
                origin(m, start),
                path,
            )->Some_0.state == m.accept,
        match_at(m, input, start) is Some ==> forall|path: Seq<int>|
            (#[trigger] walk(m, input, origin(m, start), path)) is Some && walk(
                m,
                input,
                origin(m, start),
                path,
            )->Some_0.state == m.accept ==> walk(m, input, origin(m, start), path)->Some_0.pos
                <= match_at(m, input, start)->Some_0.0,
{
    if match_at(m, input, start) is Some {
        lemma_match_is_walk(m, input, start);
    }
    assert forall|path: Seq<int>|
        (#[trigger] walk(m, input, origin(m, start), path)) is Some && walk(
            m,
            input,
            origin(m, start),
            path,
        )->Some_0.state == m.accept implies match_at(m, input, start) is Some && walk(
        m,
        input,
        origin(m, start),
        path,
    )->Some_0.pos <= match_at(m, input, start)->Some_0.0 by {
        lemma_plain_match_complete(m, input, start, path);
    }
}

/// The automaton of a pattern without backreferences has no backreference
/// among its edges.
pub proof fn lemma_automaton_plain(e: ExprView, flags: ModeFlags)
    requires
        no_backrefs(e),
    ensures
        plain(machine_of(e, flags)),
        0 <= machine_of(e, flags).accept < machine_of(e, flags).graph.len(),
{
    lemma_thompson(e, declared(e), empty_build());
    let m = machine_of(e, flags);
    assert(graph_closed(empty_build().graph));
    assert forall|s: int, j: int| 0 <= s < m.graph.len() && 0 <= j < m.graph[s].len() implies !((
    #[trigger] m.graph[s][j]).0 is Backref) && !(m.graph[s][j].0 is BackrefRelative) by {
        assert(!is_backref(m.graph[s][j].0));
    }
}

/// A pattern without backreferences matches at `start` just when a walk
/// leads through its automaton from the start state at `start` to the
/// accepting state, and the match ends where the longest such walk ends.
pub proof fn lemma_pattern_match_is_longest_walk(
    e: ExprView,
    flags: ModeFlags,
    input: Seq<char>,
    start: int,
)
    requires
        no_backrefs(e),
        0 <= start <= input.len(),
    ensures
        match_at(machine_of(e, flags), input, start) is Some <==> exists|path: Seq<int>|
            (#[trigger] walk(machine_of(e, flags), input, origin(machine_of(e, flags), start), path))
                is Some && walk(
                machine_of(e, flags),
                input,
                origin(machine_of(e, flags), start),
                path,
            )->Some_0.state == machine_of(e, flags).accept,
        match_at(machine_of(e, flags), input, start) is Some ==> forall|path: Seq<int>|
            (#[trigger] walk(machine_of(e, flags), input, origin(machine_of(e, flags), start), path))
                is Some && walk(
                machine_of(e, flags),
                input,
                origin(machine_of(e, flags), start),
                path,
            )->Some_0.state == machine_of(e, flags).accept ==> walk(
                machine_of(e, flags),
                input,
                origin(machine_of(e, flags), start),
                path,
            )->Some_0.pos <= match_at(machine_of(e, flags), input, start)->Some_0.0,
{
    lemma_automaton_plain(e, flags);
    lemma_plain_match_is_longest_walk(machine_of(e, flags), input, start);
}

} // verus!
