//! Walks through an automaton, and why every match is the end of one.
//!
//! A walk starts in the start state at the position where the match starts,
//! without captures, and crosses one edge after the other. Each crossing
//! obeys the label of its edge: it consumes what the label asks for and
//! changes the captures as the label says. The run of the simulation keeps
//! only threads that a walk leads to, so what it reports as a match is the
//! end of a walk into the accepting state.

use crate::simulation::{
    Agenda, Caps, Machine, Thread, accepting, closure, closure_run, crosses, due, edges_of,
    fire_edges, fire_threads, first_thread, follow, idle_agenda, match_at, reversed, run_from,
    schedule, stacked,
};
use crate::groups::resolve_relative;
use crate::thompson::Label;
use vstd::prelude::*;

verus! {

/// A point of a walk: a state, a position of the input and the captures
/// made so far.
pub struct Config {
    pub state: int,
    pub pos: int,
    pub caps: Caps,
}

/// The point behind edge `j` of the state of `c`, if the edge can be
/// crossed at `c`.
pub open spec fn step(m: Machine, input: Seq<char>, c: Config, j: int) -> Option<Config> {
    if 0 <= j < edges_of(m, c.state).len() {
        let (label, to) = edges_of(m, c.state)[j];
        match crosses(m, input, c.pos, label, c.caps) {
            Some((n, caps)) => Some(Config { state: to, pos: c.pos + n, caps }),
            None => None,
        }
    } else {
        None
    }
}

/// The point that the walk from `c` along the edges `path` ends in: each
/// element of `path` is the place of an edge among the edges of the state
/// that the walk is in.
pub open spec fn walk(m: Machine, input: Seq<char>, c: Config, path: Seq<int>) -> Option<Config>
    decreases path.len(),
{
    if path.len() == 0 {
        Some(c)
    } else {
        match walk(m, input, c, path.drop_last()) {
            Some(before) => step(m, input, before, path.last()),
            None => None,
        }
    }
}

/// The point at which every walk of an attempt at `start` begins.
pub open spec fn origin(m: Machine, start: int) -> Config {
    Config { state: m.start, pos: start, caps: Map::empty() }
}

/// A walk leads from the origin of an attempt at `start` to `c`.
pub open spec fn reaches(m: Machine, input: Seq<char>, start: int, c: Config) -> bool {
    exists|path: Seq<int>| #[trigger] walk(m, input, origin(m, start), path) == Some(c)
}

/// The thread `t` at `pos` as a point of a walk.
pub open spec fn at(t: Thread, pos: int) -> Config {
    Config { state: t.state, pos, caps: t.caps }
}

/// A walk leads to every thread of `threads` at `pos`.
pub open spec fn all_reached(
    m: Machine,
    input: Seq<char>,
    start: int,
    pos: int,
    threads: Seq<Thread>,
) -> bool {
    forall|i: int| 0 <= i < threads.len() ==> reaches(m, input, start, at(#[trigger] threads[i], pos))
}

/// A walk leads to every thread on the agenda at the position at which
/// the thread is due.
pub open spec fn agenda_reached(m: Machine, input: Seq<char>, start: int, agenda: Agenda) -> bool {
    forall|p: int| 0 <= p < agenda.len() ==> all_reached(m, input, start, p + 1, #[trigger] agenda[p])
}

/// The groups that the walk from `c` along `path` opens.
pub open spec fn opened(m: Machine, input: Seq<char>, c: Config, path: Seq<int>) -> Set<u32>
    decreases path.len(),
{
    if path.len() == 0 {
        Set::empty()
    } else {
        let earlier = opened(m, input, c, path.drop_last());
        match walk(m, input, c, path.drop_last()) {
            Some(before) => match edges_of(m, before.state)[path.last()].0 {
                Label::GroupStart(k) => earlier.insert(k),
                _ => earlier,
            },
            None => earlier,
        }
    }
}

/// A walk that goes one edge further.
pub proof fn lemma_walk_on(m: Machine, input: Seq<char>, c: Config, path: Seq<int>, j: int)
    ensures
        walk(m, input, c, path.push(j)) == match walk(m, input, c, path) {
            Some(before) => step(m, input, before, j),
            None => None,
        },
{
    assert(path.push(j).drop_last() =~= path);
}

/// What a walk reaches, it reaches one edge further too.
pub proof fn lemma_reaches_on(m: Machine, input: Seq<char>, start: int, c: Config, j: int)
    requires
        reaches(m, input, start, c),
        step(m, input, c, j) is Some,
    ensures
        reaches(m, input, start, step(m, input, c, j)->Some_0),
{
    let path = choose|path: Seq<int>| #[trigger] walk(m, input, origin(m, start), path) == Some(c);
    lemma_walk_on(m, input, origin(m, start), path, j);
    assert(walk(m, input, origin(m, start), path.push(j)) == step(m, input, c, j));
}

/// The captures at the end of a walk are the captures at its start and a
/// span for every group that the walk opens, and for no other group.
pub proof fn lemma_walk_captures(m: Machine, input: Seq<char>, c: Config, path: Seq<int>)
    requires
        walk(m, input, c, path) is Some,
    ensures
        walk(m, input, c, path)->Some_0.caps.dom() == c.caps.dom().union(
            opened(m, input, c, path),
        ),
    decreases path.len(),
{
    let end = walk(m, input, c, path)->Some_0;
    if path.len() == 0 {
        assert(end.caps.dom() =~= c.caps.dom().union(opened(m, input, c, path)));
    } else {
        let before = walk(m, input, c, path.drop_last())->Some_0;
        lemma_walk_captures(m, input, c, path.drop_last());
        let (label, to) = edges_of(m, before.state)[path.last()];
        assert(end.caps.dom() =~= c.caps.dom().union(opened(m, input, c, path)));
    }
}

/// A backreference that a walk crosses consumes a copy of what its group
/// captured: the walk goes on behind the copy, with the same captures.
pub proof fn lemma_backref_copies(m: Machine, input: Seq<char>, c: Config, j: int, group: u32)
    requires
        step(m, input, c, j) is Some,
        edges_of(m, c.state)[j].0 == Label::Backref(group) || (exists|r: i32|
            edges_of(m, c.state)[j].0 == Label::BackrefRelative(r) && resolve_relative(
                m.names,
                r as int,
            ) == Some(group)),
    ensures
        c.caps.contains_key(group),
        c.caps[group].0 <= c.caps[group].1 <= input.len(),
        step(m, input, c, j)->Some_0.pos == c.pos + (c.caps[group].1 - c.caps[group].0),
        step(m, input, c, j)->Some_0.pos <= input.len(),
        input.subrange(c.pos, step(m, input, c, j)->Some_0.pos) == input.subrange(
            c.caps[group].0 as int,
            c.caps[group].1 as int,
        ),
        step(m, input, c, j)->Some_0.caps == c.caps,
{
}

/// Every step of a walk is a crossing: the walk up to the step exists, and
/// the step leads from its end to the end of the walk up to the next step.
pub proof fn lemma_walk_steps(m: Machine, input: Seq<char>, c: Config, path: Seq<int>, i: int)
    requires
        walk(m, input, c, path) is Some,
        0 <= i < path.len(),
    ensures
        walk(m, input, c, path.take(i)) is Some,
        walk(m, input, c, path.take(i + 1)) == step(
            m,
            input,
            walk(m, input, c, path.take(i))->Some_0,
            path[i],
        ),
        walk(m, input, c, path.take(i + 1)) is Some,
    decreases path.len(),
{
    if i == path.len() - 1 {
        assert(path.take(i) =~= path.drop_last());
        assert(path.take(i + 1) =~= path);
    } else {
        lemma_walk_steps(m, input, c, path.drop_last(), i);
        assert(path.drop_last().take(i) =~= path.take(i));
        assert(path.drop_last().take(i + 1) =~= path.take(i + 1));
    }
}

proof fn lemma_stacked_reached(
    m: Machine,
    input: Seq<char>,
    start: int,
    pos: int,
    t: Thread,
    below: Seq<Thread>,
    j: int,
)
    requires
        all_reached(m, input, start, pos, below),
        reaches(m, input, start, at(t, pos)),
        0 <= j,
    ensures
        all_reached(m, input, start, pos, stacked(m, input, pos, t, below, j)),
    decreases edges_of(m, t.state).len() - j,
{
    if j < edges_of(m, t.state).len() {
        lemma_stacked_reached(m, input, start, pos, t, below, j + 1);
        let rest = stacked(m, input, pos, t, below, j + 1);
        match follow(m, input, pos, t, j) {
            Some(next) => {
                lemma_reaches_on(m, input, start, at(t, pos), j);
                assert(step(m, input, at(t, pos), j) == Some(at(next, pos)));
                let all = rest.push(next);
                assert forall|i: int| 0 <= i < all.len() implies reaches(
                    m,
                    input,
                    start,
                    at(#[trigger] all[i], pos),
                ) by {
                    if i < rest.len() {
                        assert(all[i] == rest[i]);
                    }
                }
            },
            None => {},
        }
    }
}

proof fn lemma_closure_run_reached(
    m: Machine,
    input: Seq<char>,
    start: int,
    pos: int,
    stack: Seq<Thread>,
    seen: Seq<bool>,
    out: Seq<Thread>,
)
    requires
        all_reached(m, input, start, pos, stack),
        all_reached(m, input, start, pos, out),
    ensures
        all_reached(m, input, start, pos, closure_run(m, input, pos, stack, seen, out)),
    decreases crate::simulation::unseen(seen), stack.len(),
{
    if stack.len() > 0 {
        let t = stack.last();
        let rest = stack.drop_last();
        assert forall|i: int| 0 <= i < rest.len() implies reaches(
            m,
            input,
            start,
            at(#[trigger] rest[i], pos),
        ) by {
            assert(rest[i] == stack[i]);
        }
        if t.state < 0 || t.state >= seen.len() || seen[t.state] {
            lemma_closure_run_reached(m, input, start, pos, rest, seen, out);
        } else {
            crate::simulation::lemma_unseen_marks(seen, t.state);
            lemma_stacked_reached(m, input, start, pos, t, rest, 0);
            let grown = out.push(t);
            assert forall|i: int| 0 <= i < grown.len() implies reaches(
                m,
                input,
                start,
                at(#[trigger] grown[i], pos),
            ) by {
                if i < out.len() {
                    assert(grown[i] == out[i]);
                }
            }
            lemma_closure_run_reached(
                m,
                input,
                start,
                pos,
                stacked(m, input, pos, t, rest, 0),
                seen.update(t.state, true),
                grown,
            );
        }
    }
}

proof fn lemma_reversed_reached(
    m: Machine,
    input: Seq<char>,
    start: int,
    pos: int,
    threads: Seq<Thread>,
)
    requires
        all_reached(m, input, start, pos, threads),
    ensures
        all_reached(m, input, start, pos, reversed(threads)),
    decreases threads.len(),
{
    if threads.len() > 0 {
        let tail = threads.drop_first();
        assert forall|i: int| 0 <= i < tail.len() implies reaches(
            m,
            input,
            start,
            at(#[trigger] tail[i], pos),
        ) by {
            assert(tail[i] == threads[i + 1]);
        }
        lemma_reversed_reached(m, input, start, pos, tail);
        let turned = reversed(tail).push(threads[0]);
        assert forall|i: int| 0 <= i < turned.len() implies reaches(
            m,
            input,
            start,
            at(#[trigger] turned[i], pos),
        ) by {
            if i < reversed(tail).len() {
                assert(turned[i] == reversed(tail)[i]);
            }
        }
    }
}

/// A walk leads to every thread of a closure, if one leads to every seed.
pub proof fn lemma_closure_reached(
    m: Machine,
    input: Seq<char>,
    start: int,
    pos: int,
    seeds: Seq<Thread>,
)
    requires
        all_reached(m, input, start, pos, seeds),
    ensures
        all_reached(m, input, start, pos, closure(m, input, pos, seeds)),
{
    lemma_reversed_reached(m, input, start, pos, seeds);
    lemma_closure_run_reached(
        m,
        input,
        start,
        pos,
        reversed(seeds),
        Seq::new(m.graph.len(), |i: int| false),
        Seq::empty(),
    );
}

proof fn lemma_fire_edges_reached(
    m: Machine,
    input: Seq<char>,
    start: int,
    pos: int,
    t: Thread,
    j: int,
    agenda: Agenda,
)
    requires
        agenda_reached(m, input, start, agenda),
        reaches(m, input, start, at(t, pos)),
        0 <= j,
    ensures
        agenda_reached(m, input, start, fire_edges(m, input, pos, t, j, agenda)),
    decreases edges_of(m, t.state).len() - j,
{
    if j < edges_of(m, t.state).len() {
        let (label, to) = edges_of(m, t.state)[j];
        let next = match crosses(m, input, pos, label, t.caps) {
            Some((n, caps)) => if n > 0 {
                schedule(agenda, pos + n, Thread { state: to, caps })
            } else {
                agenda
            },
            None => agenda,
        };
        match crosses(m, input, pos, label, t.caps) {
            Some((n, caps)) => {
                if n > 0 && 1 <= pos + n <= agenda.len() {
                    let fresh = Thread { state: to, caps };
                    lemma_reaches_on(m, input, start, at(t, pos), j);
                    assert(step(m, input, at(t, pos), j) == Some(at(fresh, pos + n)));
                    assert forall|p: int| 0 <= p < next.len() implies all_reached(
                        m,
                        input,
                        start,
                        p + 1,
                        #[trigger] next[p],
                    ) by {
                        assert(all_reached(m, input, start, p + 1, agenda[p]));
                        if p == pos + n - 1 {
                            let list = agenda[p].push(fresh);
                            assert forall|i: int| 0 <= i < list.len() implies reaches(
                                m,
                                input,
                                start,
                                at(#[trigger] list[i], p + 1),
                            ) by {
                                if i < agenda[p].len() {
                                    assert(list[i] == agenda[p][i]);
                                }
                            }
                        }
                    }
                }
            },
            None => {},
        }
        lemma_fire_edges_reached(m, input, start, pos, t, j + 1, next);
    }
}

proof fn lemma_fire_threads_reached(
    m: Machine,
    input: Seq<char>,
    start: int,
    pos: int,
    threads: Seq<Thread>,
    i: int,
    agenda: Agenda,
)
    requires
        agenda_reached(m, input, start, agenda),
        all_reached(m, input, start, pos, threads),
        0 <= i,
    ensures
        agenda_reached(m, input, start, fire_threads(m, input, pos, threads, i, agenda)),
    decreases threads.len() - i,
{
    if i < threads.len() {
        lemma_fire_edges_reached(m, input, start, pos, threads[i], 0, agenda);
        lemma_fire_threads_reached(
            m,
            input,
            start,
            pos,
            threads,
            i + 1,
            fire_edges(m, input, pos, threads[i], 0, agenda),
        );
    }
}

proof fn lemma_accepting_reached(
    m: Machine,
    input: Seq<char>,
    start: int,
    pos: int,
    threads: Seq<Thread>,
    i: int,
)
    requires
        all_reached(m, input, start, pos, threads),
        0 <= i,
        accepting(m, threads, i) is Some,
    ensures
        reaches(
            m,
            input,
            start,
            Config { state: m.accept, pos, caps: accepting(m, threads, i)->Some_0 },
        ),
    decreases threads.len() - i,
{
    if i < threads.len() {
        if threads[i].state == m.accept {
            assert(at(threads[i], pos) == Config {
                state: m.accept,
                pos,
                caps: accepting(m, threads, i)->Some_0,
            });
        } else {
            lemma_accepting_reached(m, input, start, pos, threads, i + 1);
        }
    }
}

proof fn lemma_run_reached(
    m: Machine,
    input: Seq<char>,
    start: int,
    pos: int,
    current: Seq<Thread>,
    agenda: Agenda,
    best: Option<(int, Caps)>,
)
    requires
        all_reached(m, input, start, pos, current),
        agenda_reached(m, input, start, agenda),
        best is Some ==> reaches(
            m,
            input,
            start,
            Config { state: m.accept, pos: best->Some_0.0, caps: best->Some_0.1 },
        ),
    ensures
        run_from(m, input, pos, current, agenda, best) is Some ==> reaches(
            m,
            input,
            start,
            Config {
                state: m.accept,
                pos: run_from(m, input, pos, current, agenda, best)->Some_0.0,
                caps: run_from(m, input, pos, current, agenda, best)->Some_0.1,
            },
        ),
    decreases input.len() + 1 - pos,
{
    if 0 <= pos <= input.len() {
        let threads = closure(m, input, pos, current);
        lemma_closure_reached(m, input, start, pos, current);
        let better = match accepting(m, threads, 0) {
            Some(caps) => Some((pos, caps)),
            None => best,
        };
        if accepting(m, threads, 0) is Some {
            lemma_accepting_reached(m, input, start, pos, threads, 0);
        }
        let later = fire_threads(m, input, pos, threads, 0, agenda);
        lemma_fire_threads_reached(m, input, start, pos, threads, 0, agenda);
        assert(all_reached(m, input, start, pos + 1, due(later, pos + 1))) by {
            if 1 <= pos + 1 <= later.len() {
                assert(all_reached(m, input, start, pos + 1, later[pos]));
            }
        }
        lemma_run_reached(m, input, start, pos + 1, due(later, pos + 1), later, better);
    }
}

/// Every match is the end of a walk: a walk leads from the start state at
/// the start of the match, without captures, to the accepting state at the
/// end of the match, with the captures of the match; and the match holds a
/// span for just the groups that this walk opens.
pub proof fn lemma_match_is_walk(m: Machine, input: Seq<char>, start: int)
    requires
        match_at(m, input, start) is Some,
    ensures
        exists|path: Seq<int>|
            #[trigger] walk(m, input, origin(m, start), path) == Some(
                Config {
                    state: m.accept,
                    pos: match_at(m, input, start)->Some_0.0,
                    caps: match_at(m, input, start)->Some_0.1,
                },
            ) && match_at(m, input, start)->Some_0.1.dom() == opened(
                m,
                input,
                origin(m, start),
                path,
            ),
{
    let seeds = seq![first_thread(m)];
    assert(walk(m, input, origin(m, start), Seq::empty()) == Some(origin(m, start)));
    assert(at(seeds[0], start) == origin(m, start));
    assert(all_reached(m, input, start, start, seeds));
    assert(agenda_reached(m, input, start, idle_agenda(input)));
    lemma_run_reached(m, input, start, start, seeds, idle_agenda(input), None);
    let end = Config {
        state: m.accept,
        pos: match_at(m, input, start)->Some_0.0,
        caps: match_at(m, input, start)->Some_0.1,
    };
    let path = choose|path: Seq<int>| #[trigger] walk(m, input, origin(m, start), path) == Some(end);
    lemma_walk_captures(m, input, origin(m, start), path);
    assert(end.caps.dom() =~= opened(m, input, origin(m, start), path));
}

/// Every span of `caps` starts at `from` or later, ends at `upto` or
/// earlier, and does not end before it starts.
pub open spec fn spans_between(caps: Caps, from: int, upto: int) -> bool {
    forall|k: u32| caps.contains_key(k) ==> from <= (#[trigger] caps[k]).0 <= caps[k].1 <= upto
}

/// An edge with a backreference to `group` can be crossed at `pos` just
/// when the group has captured and the characters at `pos` are those of
/// its span, one by one. Crossing it consumes as many characters as the
/// span holds and changes no capture.
pub proof fn lemma_backref_crossing(m: Machine, input: Seq<char>, pos: int, group: u32, caps: Caps)
    requires
        0 <= pos,
    ensures
        crosses(m, input, pos, Label::Backref(group), caps) is Some <==> {
            &&& caps.contains_key(group)
            &&& caps[group].0 <= caps[group].1 <= input.len()
            &&& pos + (caps[group].1 - caps[group].0) <= input.len()
            &&& input.subrange(caps[group].0 as int, caps[group].1 as int) == input.subrange(
                pos,
                pos + (caps[group].1 - caps[group].0),
            )
        },
        crosses(m, input, pos, Label::Backref(group), caps) is Some ==> crosses(
            m,
            input,
            pos,
            Label::Backref(group),
            caps,
        ) == Some((caps[group].1 - caps[group].0, caps)),
{
}

/// The spans that a walk captures lie between the place at which the walk
/// starts and the place that it has reached.
pub proof fn lemma_walk_spans(m: Machine, input: Seq<char>, c: Config, path: Seq<int>, from: int)
    requires
        0 <= from <= c.pos <= input.len() <= usize::MAX,
        spans_between(c.caps, from, c.pos),
        walk(m, input, c, path) is Some,
    ensures
        from <= walk(m, input, c, path)->Some_0.pos <= input.len(),
        spans_between(walk(m, input, c, path)->Some_0.caps, from, walk(m, input, c, path)->Some_0.pos),
    decreases path.len(),
{
    if path.len() > 0 {
        lemma_walk_spans(m, input, c, path.drop_last(), from);
        let before = walk(m, input, c, path.drop_last())->Some_0;
        let (label, to) = edges_of(m, before.state)[path.last()];
        let after = walk(m, input, c, path)->Some_0;
        assert(step(m, input, before, path.last()) == Some(after));
        assert(crosses(m, input, before.pos, label, before.caps) == Some(
            (after.pos - before.pos, after.caps),
        ));
        assert(before.pos <= after.pos <= input.len());
        assert forall|k: u32| after.caps.contains_key(k) implies from <= (
        #[trigger] after.caps[k]).0 <= after.caps[k].1 <= after.pos by {
            if before.caps.contains_key(k) {
                assert(from <= before.caps[k].0 <= before.caps[k].1 <= before.pos);
            }
        }
    }
}

/// The spans of a match lie within the match: no group starts before the
/// match starts, ends behind its end, or ends before it starts.
pub proof fn lemma_match_spans(m: Machine, input: Seq<char>, start: int)
    requires
        0 <= start <= input.len() <= usize::MAX,
        match_at(m, input, start) is Some,
    ensures
        start <= match_at(m, input, start)->Some_0.0 <= input.len(),
        spans_between(match_at(m, input, start)->Some_0.1, start, match_at(m, input, start)->Some_0.0),
{
    lemma_match_is_walk(m, input, start);
    let end = match_at(m, input, start)->Some_0;
    let path = choose|path: Seq<int>| #[trigger]
        walk(m, input, origin(m, start), path) == Some(
            Config { state: m.accept, pos: end.0, caps: end.1 },
        );
    lemma_walk_spans(m, input, origin(m, start), path, start);
}

} // verus!
