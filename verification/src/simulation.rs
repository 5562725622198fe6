//! What matching is: the run of an automaton on an input, as functions.
//!
//! A thread is a state with the captures made on the way to it. At every
//! position of the input the automaton holds an ordered list of threads, at
//! most one per state; the order is the order of preference, which the order
//! of the edges of each state gives. A thread that consumes one character
//! is due at the next position; a thread that consumes what a group
//! captured is due as many positions further as the capture is long.
//!
//! All positions count codepoints.

use crate::ast::ClassItem;
use crate::engine::ModeFlags;
use crate::groups::{Names, resolve_relative};
use crate::text::{folded, is_digit, is_space, is_word};
use crate::thompson::{Edge, Graph, Label};
use vstd::prelude::*;

verus! {

/// An automaton as matching sees it.
pub struct Machine {
    /// The edges of every state, in the order of preference.
    pub graph: Graph,
    /// The state in which matching starts.
    pub start: int,
    /// The state that accepts.
    pub accept: int,
    /// The names of the groups, in declaration order.
    pub names: Names,
    /// The modes of matching.
    pub flags: ModeFlags,
}

/// The spans that groups have captured, by group index. A span is a pair of
/// positions, the first included and the second not.
pub type Caps = Map<u32, (usize, usize)>;

/// A thread of the simulation.
pub struct Thread {
    pub state: int,
    pub caps: Caps,
}

/// The threads that are due, by position.
pub type Agenda = Seq<Seq<Thread>>;

/// The pattern character `wanted` matches the input character `c`.
pub open spec fn char_matches(flags: ModeFlags, wanted: char, c: char) -> bool {
    if flags.case_insensitive {
        folded(wanted) == folded(c)
    } else {
        wanted == c
    }
}

/// The shorthand class with the letter `letter` holds `c`.
pub open spec fn shorthand_matches(letter: char, c: char) -> bool {
    if letter == 'd' {
        is_digit(c)
    } else if letter == 'D' {
        !is_digit(c)
    } else if letter == 'w' {
        is_word(c)
    } else if letter == 'W' {
        !is_word(c)
    } else if letter == 's' {
        is_space(c)
    } else if letter == 'S' {
        !is_space(c)
    } else {
        false
    }
}

/// The class item `item` holds `c`. Without regard to case a range also
/// holds what lies in it once both bounds and `c` are folded.
pub open spec fn item_matches(flags: ModeFlags, item: ClassItem, c: char) -> bool {
    match item {
        ClassItem::Char(wanted) => char_matches(flags, wanted, c),
        ClassItem::Range(lo, hi) => (lo <= c && c <= hi) || (flags.case_insensitive && folded(lo)
            <= folded(c) && folded(c) <= folded(hi)),
        ClassItem::Shorthand(letter) => shorthand_matches(letter, c),
    }
}

/// The class matches `c`: one of its items holds `c`, or none does if the
/// class is negated.
pub open spec fn class_matches(
    flags: ModeFlags,
    negated: bool,
    items: Seq<ClassItem>,
    c: char,
) -> bool {
    negated != (exists|i: int| 0 <= i < items.len() && item_matches(flags, #[trigger] items[i], c))
}

/// `pos` is at the start of the input, or of a line in multiline mode.
pub open spec fn at_start(flags: ModeFlags, input: Seq<char>, pos: int) -> bool {
    pos == 0 || (flags.multiline && 0 < pos <= input.len() && input[pos - 1] == '\n')
}

/// `pos` is at the end of the input, or of a line in multiline mode.
pub open spec fn at_end(flags: ModeFlags, input: Seq<char>, pos: int) -> bool {
    pos == input.len() || (flags.multiline && 0 <= pos < input.len() && input[pos] == '\n')
}

/// There is a word character at `pos`.
pub open spec fn word_at(input: Seq<char>, pos: int) -> bool {
    0 <= pos < input.len() && is_word(input[pos])
}

/// Just one of the two characters around `pos` is a word character.
pub open spec fn word_boundary(input: Seq<char>, pos: int) -> bool {
    word_at(input, pos - 1) != word_at(input, pos)
}

/// The number of characters that a backreference to group `group` consumes
/// at `pos`: the length of the capture, if the group has captured and a copy
/// of the capture stands at `pos`.
pub open spec fn backref_len(input: Seq<char>, caps: Caps, group: u32, pos: int) -> Option<int> {
    if caps.contains_key(group) {
        let (s, e) = caps[group];
        if s <= e <= input.len() && 0 <= pos && pos + (e - s) <= input.len() && input.subrange(
            s as int,
            e as int,
        ) == input.subrange(pos, pos + (e - s)) {
            Some(e - s)
        } else {
            None
        }
    } else {
        None
    }
}

/// What it takes to cross an edge with the label `label` at `pos` with the
/// captures `caps`: the number of characters consumed and the captures
/// behind the edge, or `None` if the edge cannot be crossed there.
pub open spec fn crosses(m: Machine, input: Seq<char>, pos: int, label: Label, caps: Caps) -> Option<
    (int, Caps),
> {
    match label {
        Label::Char(wanted) => if 0 <= pos < input.len() && char_matches(
            m.flags,
            wanted,
            input[pos],
        ) {
            Some((1, caps))
        } else {
            None
        },
        Label::Any => if 0 <= pos < input.len() && (m.flags.dotall || input[pos] != '\n') {
            Some((1, caps))
        } else {
            None
        },
        Label::Class { negated, items } => if 0 <= pos < input.len() && class_matches(
            m.flags,
            negated,
            items,
            input[pos],
        ) {
            Some((1, caps))
        } else {
            None
        },
        Label::Epsilon => Some((0, caps)),
        Label::GroupStart(k) => Some((0, caps.insert(k, (pos as usize, pos as usize)))),
        Label::GroupEnd(k) => if caps.contains_key(k) {
            Some((0, caps.insert(k, (caps[k].0, pos as usize))))
        } else {
            Some((0, caps))
        },
        Label::Backref(k) => match backref_len(input, caps, k, pos) {
            Some(n) => Some((n, caps)),
            None => None,
        },
        Label::BackrefRelative(r) => match resolve_relative(m.names, r as int) {
            Some(k) => match backref_len(input, caps, k, pos) {
                Some(n) => Some((n, caps)),
                None => None,
            },
            None => None,
        },
        Label::StartAnchor => if at_start(m.flags, input, pos) {
            Some((0, caps))
        } else {
            None
        },
        Label::EndAnchor => if at_end(m.flags, input, pos) {
            Some((0, caps))
        } else {
            None
        },
        Label::WordBoundary => if word_boundary(input, pos) {
            Some((0, caps))
        } else {
            None
        },
        Label::NonWordBoundary => if !word_boundary(input, pos) {
            Some((0, caps))
        } else {
            None
        },
    }
}

/// The edges of the state `state`; none for what is no state.
pub open spec fn edges_of(m: Machine, state: int) -> Seq<Edge> {
    if 0 <= state < m.graph.len() {
        m.graph[state]
    } else {
        Seq::empty()
    }
}

/// The thread behind edge `j` of the thread `t`, if the edge can be crossed
/// at `pos` without consuming anything.
pub open spec fn follow(m: Machine, input: Seq<char>, pos: int, t: Thread, j: int) -> Option<Thread> {
    let (label, to) = edges_of(m, t.state)[j];
    match crosses(m, input, pos, label, t.caps) {
        Some((n, caps)) => if n == 0 {
            Some(Thread { state: to, caps })
        } else {
            None
        },
        None => None,
    }
}

/// `below` with the threads behind the edges of `t` from edge `j` on put on
/// top, the thread behind the first of these edges topmost.
pub open spec fn stacked(
    m: Machine,
    input: Seq<char>,
    pos: int,
    t: Thread,
    below: Seq<Thread>,
    j: int,
) -> Seq<Thread>
    decreases edges_of(m, t.state).len() - j,
{
    if j < 0 || j >= edges_of(m, t.state).len() {
        below
    } else {
        let rest = stacked(m, input, pos, t, below, j + 1);
        match follow(m, input, pos, t, j) {
            Some(next) => rest.push(next),
            None => rest,
        }
    }
}

/// The number of states that `seen` does not mark.
pub open spec fn unseen(seen: Seq<bool>) -> nat
    decreases seen.len(),
{
    if seen.len() == 0 {
        0
    } else {
        unseen(seen.drop_last()) + if seen.last() {
            0nat
        } else {
            1nat
        }
    }
}

/// The threads that a closure puts behind `out` when `stack` holds the
/// threads to visit, the next one on top, and `seen` marks the states that
/// have a thread already. A thread whose state is marked is dropped; any
/// other is added, and the threads behind its edges are visited before the
/// rest of the stack.
pub open spec fn closure_run(
    m: Machine,
    input: Seq<char>,
    pos: int,
    stack: Seq<Thread>,
    seen: Seq<bool>,
    out: Seq<Thread>,
) -> Seq<Thread>
    decreases unseen(seen), stack.len(),
    via closure_run_ends
{
    if stack.len() == 0 {
        out
    } else {
        let t = stack.last();
        let rest = stack.drop_last();
        if t.state < 0 || t.state >= seen.len() || seen[t.state] {
            closure_run(m, input, pos, rest, seen, out)
        } else {
            closure_run(
                m,
                input,
                pos,
                stacked(m, input, pos, t, rest, 0),
                seen.update(t.state, true),
                out.push(t),
            )
        }
    }
}

#[via_fn]
proof fn closure_run_ends(
    m: Machine,
    input: Seq<char>,
    pos: int,
    stack: Seq<Thread>,
    seen: Seq<bool>,
    out: Seq<Thread>,
) {
    if stack.len() > 0 {
        let t = stack.last();
        if 0 <= t.state < seen.len() && !seen[t.state] {
            lemma_unseen_marks(seen, t.state);
        }
    }
}

/// Marking a state that was not marked leaves one state less unmarked.
pub proof fn lemma_unseen_marks(seen: Seq<bool>, i: int)
    requires
        0 <= i < seen.len(),
        !seen[i],
    ensures
        unseen(seen.update(i, true)) + 1 == unseen(seen),
    decreases seen.len(),
{
    if i == seen.len() - 1 {
        assert(seen.update(i, true).drop_last() =~= seen.drop_last());
    } else {
        lemma_unseen_marks(seen.drop_last(), i);
        assert(seen.update(i, true).drop_last() =~= seen.drop_last().update(i, true));
    }
}

/// `s` back to front.
pub open spec fn reversed<T>(s: Seq<T>) -> Seq<T>
    decreases s.len(),
{
    if s.len() == 0 {
        Seq::empty()
    } else {
        reversed(s.drop_first()).push(s[0])
    }
}

/// The threads at `pos` that `seeds` lead to without consuming anything,
/// the seeds included, in the order of preference and one per state.
pub open spec fn closure(m: Machine, input: Seq<char>, pos: int, seeds: Seq<Thread>) -> Seq<Thread> {
    closure_run(
        m,
        input,
        pos,
        reversed(seeds),
        Seq::new(m.graph.len(), |i: int| false),
        Seq::empty(),
    )
}

/// The threads of `agenda` that are due at the position `at`. The list at
/// place `i` of an agenda holds the threads that are due at `i + 1`: at the
/// position where an attempt starts nothing falls due.
pub open spec fn due(agenda: Agenda, at: int) -> Seq<Thread> {
    if 1 <= at <= agenda.len() {
        agenda[at - 1]
    } else {
        Seq::empty()
    }
}

/// `agenda` with the thread `t` due at `at`, behind the threads that are
/// due there already.
pub open spec fn schedule(agenda: Agenda, at: int, t: Thread) -> Agenda {
    if 1 <= at <= agenda.len() {
        agenda.update(at - 1, agenda[at - 1].push(t))
    } else {
        agenda
    }
}

/// `agenda` with the threads behind the consuming edges of `t` from edge
/// `j` on, each due where its edge ends.
pub open spec fn fire_edges(
    m: Machine,
    input: Seq<char>,
    pos: int,
    t: Thread,
    j: int,
    agenda: Agenda,
) -> Agenda
    decreases edges_of(m, t.state).len() - j,
{
    if j < 0 || j >= edges_of(m, t.state).len() {
        agenda
    } else {
        let (label, to) = edges_of(m, t.state)[j];
        let next = match crosses(m, input, pos, label, t.caps) {
            Some((n, caps)) => if n > 0 {
                schedule(agenda, pos + n, Thread { state: to, caps })
            } else {
                agenda
            },
            None => agenda,
        };
        fire_edges(m, input, pos, t, j + 1, next)
    }
}

/// `agenda` with what the threads of `threads` from thread `i` on consume.
pub open spec fn fire_threads(
    m: Machine,
    input: Seq<char>,
    pos: int,
    threads: Seq<Thread>,
    i: int,
    agenda: Agenda,
) -> Agenda
    decreases threads.len() - i,
{
    if i < 0 || i >= threads.len() {
        agenda
    } else {
        fire_threads(
            m,
            input,
            pos,
            threads,
            i + 1,
            fire_edges(m, input, pos, threads[i], 0, agenda),
        )
    }
}

/// The captures of the first thread of `threads` from `i` on that is in
/// the accepting state.
pub open spec fn accepting(m: Machine, threads: Seq<Thread>, i: int) -> Option<Caps>
    decreases threads.len() - i,
{
    if i < 0 || i >= threads.len() {
        None
    } else if threads[i].state == m.accept {
        Some(threads[i].caps)
    } else {
        accepting(m, threads, i + 1)
    }
}

/// The last position from `pos` on at which a thread accepts, with the
/// captures of that thread; `best` if there is none. `current` holds the
/// threads that are due at `pos`, `agenda` those that are due later.
pub open spec fn run_from(
    m: Machine,
    input: Seq<char>,
    pos: int,
    current: Seq<Thread>,
    agenda: Agenda,
    best: Option<(int, Caps)>,
) -> Option<(int, Caps)>
    decreases input.len() + 1 - pos,
{
    if pos < 0 || pos > input.len() {
        best
    } else {
        let threads = closure(m, input, pos, current);
        let better = match accepting(m, threads, 0) {
            Some(caps) => Some((pos, caps)),
            None => best,
        };
        let later = fire_threads(m, input, pos, threads, 0, agenda);
        run_from(m, input, pos + 1, due(later, pos + 1), later, better)
    }
}

/// An agenda for `input` on which nothing is due.
pub open spec fn idle_agenda(input: Seq<char>) -> Agenda {
    Seq::new(input.len(), |p: int| Seq::<Thread>::empty())
}

/// The thread with which every attempt starts: in the start state, without
/// captures.
pub open spec fn first_thread(m: Machine) -> Thread {
    Thread { state: m.start, caps: Map::empty() }
}

/// The match that starts at `start`: the last position at which a thread
/// that began there accepts, with its captures.
pub open spec fn match_at(m: Machine, input: Seq<char>, start: int) -> Option<(int, Caps)> {
    if 0 <= start <= input.len() {
        run_from(m, input, start, seq![first_thread(m)], idle_agenda(input), None)
    } else {
        None
    }
}

/// Every span of `caps` is in order and ends at `bound` or before.
pub open spec fn caps_within(caps: Caps, bound: int) -> bool {
    forall|k: u32| caps.contains_key(k) ==> (#[trigger] caps[k]).0 <= caps[k].1 <= bound
}

/// The captures of every thread of `threads` lie within `bound`.
pub open spec fn threads_within(threads: Seq<Thread>, bound: int) -> bool {
    forall|i: int| 0 <= i < threads.len() ==> caps_within((#[trigger] threads[i]).caps, bound)
}

/// The captures of every thread on `agenda` lie within the position at
/// which the thread is due.
pub open spec fn agenda_within(agenda: Agenda) -> bool {
    forall|p: int| 0 <= p < agenda.len() ==> threads_within(#[trigger] agenda[p], p + 1)
}

/// Where nothing is due at `pos` or later, the run finds nothing more.
pub proof fn lemma_idle(
    m: Machine,
    input: Seq<char>,
    pos: int,
    agenda: Agenda,
    best: Option<(int, Caps)>,
)
    requires
        0 <= pos,
        forall|p: int| pos <= p ==> due(agenda, p).len() == 0,
    ensures
        run_from(m, input, pos, due(agenda, pos), agenda, best) == best,
    decreases input.len() + 1 - pos,
{
    if pos <= input.len() {
        let current = due(agenda, pos);
        assert(current =~= Seq::<Thread>::empty());
        assert(reversed(current) =~= Seq::<Thread>::empty());
        let threads = closure(m, input, pos, current);
        assert(threads =~= Seq::<Thread>::empty());
        assert(accepting(m, threads, 0) is None);
        assert(fire_threads(m, input, pos, threads, 0, agenda) == agenda);
        lemma_idle(m, input, pos + 1, agenda, best);
    }
}

/// The first position from `from` on at which a match starts.
pub open spec fn first_match(m: Machine, input: Seq<char>, from: int) -> Option<int>
    decreases input.len() + 1 - from,
{
    if from < 0 || from > input.len() {
        None
    } else if match_at(m, input, from) is Some {
        Some(from)
    } else {
        first_match(m, input, from + 1)
    }
}

/// The name of each captured group of `names` from group `k + 1` on, with
/// the span that the group captured.
pub open spec fn named_spans(names: Names, caps: Caps, k: int) -> Seq<(Seq<char>, (usize, usize))>
    decreases names.len() - k,
{
    if k < 0 || k >= names.len() {
        Seq::empty()
    } else {
        let rest = named_spans(names, caps, k + 1);
        match names[k] {
            Some(name) => if caps.contains_key((k + 1) as u32) {
                seq![(name, caps[(k + 1) as u32])] + rest
            } else {
                rest
            },
            None => rest,
        }
    }
}

} // verus!
