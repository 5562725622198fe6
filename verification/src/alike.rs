//! Automata that match alike: the same table but for labels that are
//! crossed in the same way. A relative backreference is crossed as the
//! backreference to the group that it stands for, so writing the one for
//! the other changes no match.

use crate::groups::{Names, lemma_relative_is_numeric, resolve_relative};
use crate::simulation::{
    Agenda, Caps, Machine, Thread, accepting, closure, closure_run, crosses, due, edges_of,
    fire_edges, fire_threads, first_match, first_thread, follow, idle_agenda, lemma_unseen_marks,
    match_at, reversed, run_from, stacked, unseen,
};
use crate::thompson::Label;
use vstd::prelude::*;

verus! {

/// The labels `a` of `m` and `b` of `n` are crossed in the same way.
pub open spec fn crossed_alike(m: Machine, a: Label, n: Machine, b: Label) -> bool {
    forall|input: Seq<char>, pos: int, caps: Caps| #[trigger]
        crosses(m, input, pos, a, caps) == crosses(n, input, pos, b, caps)
}

/// `m` and `n` have the same states and edges, and each edge of the one is
/// crossed as the edge of the other in its place.
pub open spec fn alike(m: Machine, n: Machine) -> bool {
    &&& m.start == n.start
    &&& m.accept == n.accept
    &&& m.graph.len() == n.graph.len()
    &&& forall|s: int| 0 <= s < m.graph.len() ==> (#[trigger] m.graph[s]).len() == n.graph[s].len()
    &&& forall|s: int, j: int|
        0 <= s < m.graph.len() && 0 <= j < m.graph[s].len() ==> (#[trigger] m.graph[s][j]).1
            == n.graph[s][j].1 && crossed_alike(m, m.graph[s][j].0, n, n.graph[s][j].0)
}

/// The label `label` with a relative backreference replaced by the
/// backreference to the group that it stands for in `names`.
pub open spec fn numeric_label(names: Names, label: Label) -> Label {
    match label {
        Label::BackrefRelative(r) => match resolve_relative(names, r as int) {
            Some(group) => Label::Backref(group),
            None => label,
        },
        _ => label,
    }
}

/// `m` with every relative backreference replaced by the backreference to
/// the group that it stands for.
pub open spec fn with_numeric_backrefs(m: Machine) -> Machine {
    Machine {
        graph: Seq::new(
            m.graph.len(),
            |s: int|
                Seq::new(
                    m.graph[s].len(),
                    |j: int| (numeric_label(m.names, m.graph[s][j].0), m.graph[s][j].1),
                ),
        ),
        start: m.start,
        accept: m.accept,
        names: m.names,
        flags: m.flags,
    }
}

proof fn lemma_follow_alike(m: Machine, n: Machine, input: Seq<char>, pos: int, t: Thread, j: int)
    requires
        alike(m, n),
        0 <= j < edges_of(m, t.state).len(),
    ensures
        follow(m, input, pos, t, j) == follow(n, input, pos, t, j),
{
    let (a, to) = m.graph[t.state][j];
    let (b, to2) = n.graph[t.state][j];
    assert(crossed_alike(m, a, n, b));
    assert(crosses(m, input, pos, a, t.caps) == crosses(n, input, pos, b, t.caps));
}

proof fn lemma_stacked_alike(
    m: Machine,
    n: Machine,
    input: Seq<char>,
    pos: int,
    t: Thread,
    below: Seq<Thread>,
    j: int,
)
    requires
        alike(m, n),
        0 <= j,
    ensures
        stacked(m, input, pos, t, below, j) == stacked(n, input, pos, t, below, j),
    decreases edges_of(m, t.state).len() - j,
{
    if 0 <= t.state < m.graph.len() {
        assert(m.graph[t.state].len() == n.graph[t.state].len());
    }
    if j < edges_of(m, t.state).len() {
        lemma_stacked_alike(m, n, input, pos, t, below, j + 1);
        lemma_follow_alike(m, n, input, pos, t, j);
    }
}

proof fn lemma_closure_run_alike(
    m: Machine,
    n: Machine,
    input: Seq<char>,
    pos: int,
    stack: Seq<Thread>,
    seen: Seq<bool>,
    out: Seq<Thread>,
)
    requires
        alike(m, n),
    ensures
        closure_run(m, input, pos, stack, seen, out) == closure_run(n, input, pos, stack, seen, out),
    decreases unseen(seen), stack.len(),
{
    if stack.len() > 0 {
        let t = stack.last();
        let rest = stack.drop_last();
        if t.state < 0 || t.state >= seen.len() || seen[t.state] {
            lemma_closure_run_alike(m, n, input, pos, rest, seen, out);
        } else {
            lemma_unseen_marks(seen, t.state);
            lemma_stacked_alike(m, n, input, pos, t, rest, 0);
            lemma_closure_run_alike(
                m,
                n,
                input,
                pos,
                stacked(m, input, pos, t, rest, 0),
                seen.update(t.state, true),
                out.push(t),
            );
        }
    }
}

proof fn lemma_closure_alike(m: Machine, n: Machine, input: Seq<char>, pos: int, seeds: Seq<Thread>)
    requires
        alike(m, n),
    ensures
        closure(m, input, pos, seeds) == closure(n, input, pos, seeds),
{
    assert(Seq::new(m.graph.len(), |i: int| false) =~= Seq::new(n.graph.len(), |i: int| false));
    lemma_closure_run_alike(
        m,
        n,
        input,
        pos,
        reversed(seeds),
        Seq::new(m.graph.len(), |i: int| false),
        Seq::empty(),
    );
}

proof fn lemma_fire_edges_alike(
    m: Machine,
    n: Machine,
    input: Seq<char>,
    pos: int,
    t: Thread,
    j: int,
    agenda: Agenda,
)
    requires
        alike(m, n),
        0 <= j,
    ensures
        fire_edges(m, input, pos, t, j, agenda) == fire_edges(n, input, pos, t, j, agenda),
    decreases edges_of(m, t.state).len() - j,
{
    if 0 <= t.state < m.graph.len() {
        assert(m.graph[t.state].len() == n.graph[t.state].len());
    }
    if j < edges_of(m, t.state).len() {
        let (a, to) = m.graph[t.state][j];
        let (b, to2) = n.graph[t.state][j];
        assert(crossed_alike(m, a, n, b));
        assert(crosses(m, input, pos, a, t.caps) == crosses(n, input, pos, b, t.caps));
        let next = fire_edges(m, input, pos, t, j + 1, agenda);
        let after = match crosses(m, input, pos, a, t.caps) {
            Some((k, caps)) => if k > 0 {
                crate::simulation::schedule(agenda, pos + k, Thread { state: to, caps })
            } else {
                agenda
            },
            None => agenda,
        };
        lemma_fire_edges_alike(m, n, input, pos, t, j + 1, after);
    }
}

proof fn lemma_fire_threads_alike(
    m: Machine,
    n: Machine,
    input: Seq<char>,
    pos: int,
    threads: Seq<Thread>,
    i: int,
    agenda: Agenda,
)
    requires
        alike(m, n),
        0 <= i,
    ensures
        fire_threads(m, input, pos, threads, i, agenda) == fire_threads(
            n,
            input,
            pos,
            threads,
            i,
            agenda,
        ),
    decreases threads.len() - i,
{
    if i < threads.len() {
        lemma_fire_edges_alike(m, n, input, pos, threads[i], 0, agenda);
        lemma_fire_threads_alike(
            m,
            n,
            input,
            pos,
            threads,
            i + 1,
            fire_edges(m, input, pos, threads[i], 0, agenda),
        );
    }
}

proof fn lemma_accepting_alike(m: Machine, n: Machine, threads: Seq<Thread>, i: int)
    requires
        alike(m, n),
        0 <= i,
    ensures
        accepting(m, threads, i) == accepting(n, threads, i),
    decreases threads.len() - i,
{
    if i < threads.len() {
        lemma_accepting_alike(m, n, threads, i + 1);
    }
}

proof fn lemma_run_alike(
    m: Machine,
    n: Machine,
    input: Seq<char>,
    pos: int,
    current: Seq<Thread>,
    agenda: Agenda,
    best: Option<(int, Caps)>,
)
    requires
        alike(m, n),
    ensures
        run_from(m, input, pos, current, agenda, best) == run_from(
            n,
            input,
            pos,
            current,
            agenda,
            best,
        ),
    decreases input.len() + 1 - pos,
{
    if 0 <= pos <= input.len() {
        lemma_closure_alike(m, n, input, pos, current);
        let threads = closure(m, input, pos, current);
        lemma_accepting_alike(m, n, threads, 0);
        lemma_fire_threads_alike(m, n, input, pos, threads, 0, agenda);
        let better = match accepting(m, threads, 0) {
            Some(caps) => Some((pos, caps)),
            None => best,
        };
        let later = fire_threads(m, input, pos, threads, 0, agenda);
        lemma_run_alike(m, n, input, pos + 1, due(later, pos + 1), later, better);
    }
}

/// Automata that are alike give the same match at every start.
pub proof fn lemma_match_alike(m: Machine, n: Machine, input: Seq<char>, start: int)
    requires
        alike(m, n),
    ensures
        match_at(m, input, start) == match_at(n, input, start),
{
    assert(first_thread(m) == first_thread(n));
    lemma_run_alike(m, n, input, start, seq![first_thread(m)], idle_agenda(input), None);
}

/// Automata that are alike find their first match at the same position.
pub proof fn lemma_first_match_alike(m: Machine, n: Machine, input: Seq<char>, from: int)
    requires
        alike(m, n),
    ensures
        first_match(m, input, from) == first_match(n, input, from),
    decreases input.len() + 1 - from,
{
    if 0 <= from <= input.len() {
        lemma_match_alike(m, n, input, from);
        lemma_first_match_alike(m, n, input, from + 1);
    }
}

/// Replacing every relative backreference by the backreference to the
/// group that it stands for changes no match.
pub proof fn lemma_relative_backrefs_are_numeric(m: Machine, input: Seq<char>, start: int)
    ensures
        match_at(with_numeric_backrefs(m), input, start) == match_at(m, input, start),
{
    let n = with_numeric_backrefs(m);
    assert forall|s: int, j: int| 0 <= s < m.graph.len() && 0 <= j < m.graph[s].len() implies (
    #[trigger] m.graph[s][j]).1 == n.graph[s][j].1 && crossed_alike(
        m,
        m.graph[s][j].0,
        n,
        n.graph[s][j].0,
    ) by {
        let a = m.graph[s][j].0;
        let b = n.graph[s][j].0;
        assert(b == numeric_label(m.names, a));
        assert forall|input: Seq<char>, pos: int, caps: Caps| #[trigger]
            crosses(m, input, pos, a, caps) == crosses(n, input, pos, b, caps) by {}
    }
    lemma_match_alike(m, n, input, start);
}

/// In a pattern whose groups have no names, the relative backreference
/// `-k` is crossed as the backreference to group `n + 1 - k`, where `n` is
/// the number of groups of the pattern.
pub proof fn lemma_relative_is_counted_back(m: Machine, k: int)
    requires
        forall|i: int| 0 <= i < m.names.len() ==> #[trigger] m.names[i] is None,
        m.names.len() <= 0x7fff_ffff,
        1 <= k <= m.names.len(),
    ensures
        numeric_label(m.names, Label::BackrefRelative((-k) as i32)) == Label::Backref(
            (m.names.len() + 1 - k) as u32,
        ),
        crossed_alike(
            m,
            Label::BackrefRelative((-k) as i32),
            m,
            Label::Backref((m.names.len() + 1 - k) as u32),
        ),
{
    lemma_relative_is_numeric(m.names, k);
}

} // verus!
