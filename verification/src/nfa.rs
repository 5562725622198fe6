//! The automaton of a pattern and its construction from the syntax tree.
//!
//! What is built is stated in [`crate::thompson`]; the functions here build
//! exactly that table.

use crate::ast::{ClassItem, Expr, ExprView, Quantifier, expr_views, lemma_expr_views};
use crate::engine::ModeFlags;
use crate::groups::{
    GroupCollector, GroupRegistry, Names, declared, declared_upto, lemma_declared_upto_grows,
    numbered_of, resolve_relative,
};
use crate::simulation::{Machine, lemma_unseen_marks, unseen};
use std::collections::HashSet;
use vstd::std_specs::hash::*;
use crate::text::{char_is_digit, char_is_upper, chars_of, is_digit, parse_decimal};
use crate::thompson::{
    Build, Edge, Graph, Label, Piece, at_least, automaton, between, branches, chain, empty_build,
    exact, graph_closed, grouped, looped, named_target, optional_copies, pair, repeat,
    shorthand_label, thompson, with_edge, with_state,
};
use vstd::prelude::*;

verus! {

/// The place of a state in the table of its automaton.
pub type StateId = usize;

/// The label of an edge.
#[derive(Debug, Clone, PartialEq)]
pub enum Transition {
    /// Consumes the given character.
    Char(char),
    /// Consumes any character.
    Any,
    /// Consumes nothing.
    Epsilon,
    /// Consumes a character of the class.
    CharClass {
        /// Whether the class matches what its items do not.
        negated: bool,
        /// The items of the class.
        items: Vec<ClassItem>,
    },
    /// Opens a capture group.
    GroupStart(u32),
    /// Closes a capture group.
    GroupEnd(u32),
    /// Consumes a copy of what the group captured.
    Backref(u32),
    /// As `Backref`, for the numbered group counted back from the last.
    BackrefRelative(i32),
    /// Passes at the start of the input.
    StartAnchor,
    /// Passes at the end of the input.
    EndAnchor,
    /// Passes at a word boundary.
    WordBoundary,
    /// Passes where there is no word boundary.
    NonWordBoundary,
}

impl View for Transition {
    type V = Label;

    open spec fn view(&self) -> Label {
        match self {
            Transition::Char(c) => Label::Char(*c),
            Transition::Any => Label::Any,
            Transition::Epsilon => Label::Epsilon,
            Transition::CharClass { negated, items } => Label::Class {
                negated: *negated,
                items: items@,
            },
            Transition::GroupStart(k) => Label::GroupStart(*k),
            Transition::GroupEnd(k) => Label::GroupEnd(*k),
            Transition::Backref(k) => Label::Backref(*k),
            Transition::BackrefRelative(k) => Label::BackrefRelative(*k),
            Transition::StartAnchor => Label::StartAnchor,
            Transition::EndAnchor => Label::EndAnchor,
            Transition::WordBoundary => Label::WordBoundary,
            Transition::NonWordBoundary => Label::NonWordBoundary,
        }
    }
}

/// A state: its edges in the order of preference.
#[derive(Debug, Clone)]
pub struct State {
    /// The edges that leave the state.
    pub transitions: Vec<(Transition, StateId)>,
    /// Whether the state is the accepting one.
    pub is_accepting: bool,
}

impl State {
    /// A state without edges.
    pub fn new() -> (s: State)
        ensures
            s.transitions@.len() == 0,
            !s.is_accepting,
    {
        State { transitions: Vec::new(), is_accepting: false }
    }

    /// The edges of the state.
    pub open spec fn edges(&self) -> Seq<Edge> {
        Seq::new(
            self.transitions@.len(),
            |j: int| (self.transitions@[j].0@, self.transitions@[j].1 as int),
        )
    }
}

/// The edges of the states of `states`, state by state.
pub open spec fn graph_of(states: Seq<State>) -> Graph {
    Seq::new(states.len(), |i: int| states[i].edges())
}

/// An automaton: a table of states, the state where matching starts, the
/// state that accepts, the modes and the groups of the pattern.
#[derive(Debug)]
pub struct Nfa {
    /// The states; a state is addressed by its place here.
    pub states: Vec<State>,
    /// The state in which matching starts.
    pub start: StateId,
    /// The state that accepts.
    pub accept: StateId,
    /// The modes in which the automaton is run.
    pub mode_flags: ModeFlags,
    /// The index that the next group gets while the automaton is built.
    pub next_group_id: u32,
    /// The groups of the pattern.
    pub groups: GroupRegistry,
}

impl View for Nfa {
    type V = Machine;

    open spec fn view(&self) -> Machine {
        Machine {
            graph: graph_of(self.states@),
            start: self.start as int,
            accept: self.accept as int,
            names: self.groups@,
            flags: self.mode_flags,
        }
    }
}

impl Nfa {
    /// The edges of the automaton.
    pub open spec fn graph(&self) -> Graph {
        graph_of(self.states@)
    }

    /// The names of the groups of the pattern, in declaration order.
    pub open spec fn names(&self) -> Names {
        self.groups@
    }

    /// The index that the next group gets.
    pub open spec fn next_group(&self) -> int {
        self.next_group_id as int
    }

    /// The table and the group counter.
    pub open spec fn build(&self) -> Build {
        Build { graph: self.graph(), next_group: self.next_group() }
    }

    /// The registry is in order, every edge leads to a state, and so do
    /// `start` and `accept` unless there is no state at all.
    pub open spec fn wf(&self) -> bool {
        &&& self.groups.wf()
        &&& self.next_group_id >= 1
        &&& graph_closed(self.graph())
    }

    /// The automaton can be run: it is in order and has its two states.
    pub open spec fn runnable(&self) -> bool {
        &&& self.wf()
        &&& self.start < self.states@.len()
        &&& self.accept < self.states@.len()
    }

    /// `self` comes from `before` by building `piece` and nothing else.
    pub open spec fn extends(&self, before: &Nfa, piece: Piece) -> bool {
        &&& piece.build == self.build()
        &&& self.groups == before.groups
        &&& self.mode_flags == before.mode_flags
        &&& self.start == before.start
        &&& self.accept == before.accept
        &&& self.wf()
        &&& before.states@.len() <= self.states@.len()
        &&& 0 <= piece.start < self.states@.len()
        &&& 0 <= piece.accept < self.states@.len()
        &&& (forall|i: int| 0 <= i < before.states@.len() ==> (#[trigger] self.states@[i]).is_accepting
            == before.states@[i].is_accepting)
        &&& (forall|i: int|
            before.states@.len() <= i < self.states@.len() ==> !(#[trigger] self.states@[i]).is_accepting)
    }

    /// An automaton without states.
    pub fn new() -> (nfa: Nfa)
        ensures
            nfa.wf(),
            nfa.states@.len() == 0,
            nfa.start == 0,
            nfa.accept == 0,
            nfa.mode_flags == ModeFlags::none(),
            nfa.names() == Names::empty(),
            nfa.build() == empty_build(),
    {
        let nfa = Nfa {
            states: Vec::new(),
            start: 0,
            accept: 0,
            mode_flags: ModeFlags::default(),
            next_group_id: 1,
            groups: GroupRegistry::new(),
        };
        assert(nfa.graph() =~= Seq::<Seq<Edge>>::empty());
        nfa
    }

    /// Adds a state without edges and returns its place.
    pub fn new_state(&mut self) -> (id: StateId)
        requires
            old(self).wf(),
        ensures
            final(self).wf(),
            id == old(self).states@.len(),
            final(self).states@ == old(self).states@.push(final(self).states@[id as int]),
            final(self).states@[id as int].transitions@.len() == 0,
            !final(self).states@[id as int].is_accepting,
            final(self).graph() == with_state(old(self).graph()),
            final(self).start == old(self).start,
            final(self).accept == old(self).accept,
            final(self).mode_flags == old(self).mode_flags,
            final(self).names() == old(self).names(),
            final(self).next_group() == old(self).next_group(),
            final(self).groups == old(self).groups,
    {
        let id = self.states.len();
        self.states.push(State::new());
        proof {
            let g = self.graph();
            let h = with_state(old(self).graph());
            assert(g.len() == h.len());
            assert forall|i: int| 0 <= i < g.len() implies g[i] =~= h[i] by {
                if i < id {
                    assert(self.states@[i] == old(self).states@[i]);
                }
            }
            assert(g =~= h);
            assert forall|i: int, j: int| 0 <= i < g.len() && 0 <= j < g[i].len() implies 0 <= (
            #[trigger] g[i][j]).1 < g.len() by {
                assert(g[i] == h[i]);
                if i < id {
                    assert(h[i] == old(self).graph()[i]);
                }
            }
        }
        id
    }

    /// Adds the edge `transition` from `from` to `to`, behind the edges that
    /// `from` has already.
    pub fn add_transition(&mut self, from: StateId, transition: Transition, to: StateId)
        requires
            old(self).wf(),
            from < old(self).states@.len(),
            to < old(self).states@.len(),
        ensures
            final(self).wf(),
            final(self).states@.len() == old(self).states@.len(),
            final(self).graph() == with_edge(
                old(self).graph(),
                from as int,
                transition@,
                to as int,
            ),
            forall|i: int|
                0 <= i < old(self).states@.len() ==> (#[trigger] final(self).states@[i]).is_accepting
                    == old(self).states@[i].is_accepting,
            final(self).start == old(self).start,
            final(self).accept == old(self).accept,
            final(self).mode_flags == old(self).mode_flags,
            final(self).names() == old(self).names(),
            final(self).next_group() == old(self).next_group(),
            final(self).groups == old(self).groups,
    {
        let ghost label = transition@;
        let ghost before = self.states@[from as int].edges();
        self.states[from].transitions.push((transition, to));
        proof {
            let g = self.graph();
            let h = with_edge(old(self).graph(), from as int, label, to as int);
            assert(g.len() == h.len());
            assert forall|i: int| 0 <= i < g.len() implies g[i] =~= h[i] by {
                if i != from {
                    assert(self.states@[i] == old(self).states@[i]);
                } else {
                    assert(self.states@[i].edges() =~= before.push((label, to as int)));
                }
            }
            assert(g =~= h);
            assert forall|i: int, j: int| 0 <= i < g.len() && 0 <= j < g[i].len() implies 0 <= (
            #[trigger] g[i][j]).1 < g.len() by {
                assert(g[i] == h[i]);
                if i != from {
                    assert(h[i] == old(self).graph()[i]);
                } else if j < before.len() {
                    assert(h[i][j] == old(self).graph()[i][j]);
                }
            }
        }
    }
}

/// There is an edge from `a` to `b` that consumes nothing and has no
/// condition.
pub open spec fn eps_edge(g: Graph, a: usize, b: usize) -> bool {
    a < g.len() && exists|j: int| 0 <= j < g[a as int].len() && #[trigger] g[a as int][j] == (
        Label::Epsilon,
        b as int,
    )
}

/// Each state of `path` has such an edge to the next.
pub open spec fn eps_path(g: Graph, path: Seq<usize>) -> bool {
    path.len() >= 1 && forall|i: int|
        0 <= i < path.len() - 1 ==> eps_edge(g, #[trigger] path[i], path[i + 1])
}

/// A path of such edges leads from a state of `from` to `to`.
pub open spec fn eps_reach(g: Graph, from: Set<usize>, to: usize) -> bool {
    exists|path: Seq<usize>| #[trigger]
        eps_path(g, path) && from.contains(path[0]) && path.last() == to
}

/// A set of marked states that holds `from` and every state behind an edge
/// of a marked state holds every state that a path leads to.
proof fn lemma_closed_holds(g: Graph, from: Set<usize>, marked: Seq<bool>, path: Seq<usize>, k: int)
    requires
        eps_path(g, path),
        from.contains(path[0]),
        marked.len() == g.len(),
        forall|s: usize| from.contains(s) ==> s < marked.len() && marked[s as int],
        forall|a: usize, b: usize|
            a < marked.len() && marked[a as int] && #[trigger] eps_edge(g, a, b) ==> b
                < marked.len() && marked[b as int],
        0 <= k < path.len(),
    ensures
        path[k] < marked.len() && marked[path[k] as int],
    decreases k,
{
    if k > 0 {
        lemma_closed_holds(g, from, marked, path, k - 1);
        assert(eps_edge(g, path[k - 1], path[k]));
    }
}

/// A copy of `items`.
fn copy_items(items: &Vec<ClassItem>) -> (copy: Vec<ClassItem>)
    ensures
        copy@ == items@,
{
    let mut copy: Vec<ClassItem> = Vec::new();
    let mut i: usize = 0;
    while i < items.len()
        invariant
            i <= items@.len(),
            copy@ == items@.take(i as int),
        decreases items@.len() - i,
    {
        copy.push(items[i]);
        assert(copy@ =~= items@.take(i + 1));
        i += 1;
    }
    assert(items@.take(i as int) =~= items@);
    copy
}

impl Nfa {
    /// `self` comes from `before` by building `piece`, whose entry and exit
    /// are the states `ends`.
    pub open spec fn made(&self, before: &Nfa, ends: (StateId, StateId), piece: Piece) -> bool {
        &&& self.extends(before, piece)
        &&& ends.0 == piece.start
        &&& ends.1 == piece.accept
    }

    /// The automaton is in order and has indices left for the groups of `e`.
    pub open spec fn ready(&self, groups: nat) -> bool {
        &&& self.wf()
        &&& self.next_group_id + groups <= u32::MAX
    }

    /// Builds the automaton of `expr`: the table of [`automaton`], with the
    /// groups that `expr` declares and no mode switched on. The exit of the
    /// piece of `expr` is the one accepting state.
    pub fn from_expr(expr: &Expr) -> (nfa: Nfa)
        requires
            declared(expr@).len() <= GroupRegistry::capacity(),
        ensures
            nfa.runnable(),
            nfa.graph() == automaton(expr@).build.graph,
            nfa.start == automaton(expr@).start,
            nfa.accept == automaton(expr@).accept,
            nfa.names() == declared(expr@),
            nfa.mode_flags == ModeFlags::none(),
            forall|i: int|
                0 <= i < nfa.states@.len() ==> (#[trigger] nfa.states@[i]).is_accepting == (i
                    == nfa.accept),
    {
        let mut nfa = Nfa::new();
        GroupCollector::declare_all(expr, &mut nfa.groups);
        assert(nfa.names() =~= declared(expr@));
        let (start, accept) = nfa.compile_expr(expr);
        let ghost built = nfa;
        nfa.start = start;
        nfa.accept = accept;
        nfa.states[accept].is_accepting = true;
        proof {
            assert(nfa.states@.len() == built.states@.len());
            assert forall|i: int| 0 <= i < nfa.states@.len() implies (#[trigger] nfa.states@[i]).edges()
                == built.states@[i].edges() by {}
            assert(nfa.graph() =~= built.graph());
        }
        nfa
    }

    /// The states that can be reached from `states` along edges that
    /// consume nothing and have no condition, `states` included.
    pub fn epsilon_closure(&self, states: &HashSet<StateId>) -> (closure: HashSet<StateId>)
        requires
            self.wf(),
            forall|s: usize| states@.contains(s) ==> s < self.states@.len(),
        ensures
            forall|s: usize| closure@.contains(s) <==> eps_reach(self.graph(), states@, s),
    {
        broadcast use group_hash_axioms;

        let n = self.states.len();
        let ghost g = self.graph();
        let ghost from = states@;
        let mut closure: HashSet<StateId> = HashSet::new();
        let mut stack: Vec<StateId> = Vec::new();
        let mut marked: Vec<bool> = Vec::new();
        let mut i: usize = 0;
        while i < n
            invariant
                i <= n,
                n == self.states@.len(),
                g == self.graph(),
                from == states@,
                marked@.len() == i,
                forall|s: usize| closure@.contains(s) <==> (s < i && marked@[s as int]),
                forall|s: usize| s < i ==> (marked@[s as int] <==> from.contains(s)),
                forall|s: usize| s < i && marked@[s as int] ==> eps_reach(g, from, s),
                forall|k: int| 0 <= k < stack@.len() ==> (#[trigger] stack@[k]) < i && marked@[stack@[k] as int],
                forall|s: usize| s < i && marked@[s as int] ==> stack@.contains(s),
            decreases n - i,
        {
            let ghost before = stack@;
            if states.contains(&i) {
                closure.insert(i);
                marked.push(true);
                stack.push(i);
                proof {
                    let path = seq![i];
                    assert(eps_path(g, path) && from.contains(path[0]) && path.last() == i);
                    assert(stack@[stack@.len() - 1] == i);
                    assert forall|s: usize| s < i + 1 && marked@[s as int] implies stack@.contains(
                        s,
                    ) by {
                        if s < i {
                            let k = choose|k: int| 0 <= k < before.len() && before[k] == s;
                            assert(stack@[k] == s);
                        }
                    }
                }
            } else {
                marked.push(false);
            }
            i += 1;
        }
        assert(g.len() == n);
        while stack.len() > 0
            invariant
                n == self.states@.len(),
                g == self.graph(),
                g.len() == n,
                from == states@,
                self.wf(),
                marked@.len() == n,
                forall|s: usize| closure@.contains(s) <==> (s < n && marked@[s as int]),
                forall|s: usize| from.contains(s) ==> s < n && marked@[s as int],
                forall|s: usize| s < n && marked@[s as int] ==> eps_reach(g, from, s),
                forall|k: int|
                    0 <= k < stack@.len() ==> (#[trigger] stack@[k]) < n && marked@[stack@[k] as int],
                forall|a: usize, b: usize|
                    a < n && marked@[a as int] && !stack@.contains(a) && #[trigger] eps_edge(g, a, b)
                        ==> b < n && marked@[b as int],
            decreases unseen(marked@), stack@.len(),
        {
            let ghost old_stack = stack@;
            let ghost old_marked = marked@;
            let s = match stack.pop() {
                Some(s) => s,
                None => {
                    return closure;
                },
            };
            let ghost rest = stack@;
            assert(old_stack =~= rest.push(s));
            assert(old_stack[old_stack.len() - 1] == s);
            assert forall|a: usize| a != s && !rest.contains(a) implies !old_stack.contains(a) by {
                if old_stack.contains(a) {
                    let k = choose|k: int| 0 <= k < old_stack.len() && old_stack[k] == a;
                    assert(rest[k] == a);
                }
            }
            let edges = &self.states[s].transitions;
            let mut j: usize = 0;
            while j < edges.len()
                invariant
                    n == self.states@.len(),
                    g == self.graph(),
                    g.len() == n,
                    from == states@,
                    self.wf(),
                    s < n,
                    marked@[s as int],
                    *edges == self.states@[s as int].transitions,
                    j <= edges@.len(),
                    marked@.len() == n,
                    forall|x: usize| closure@.contains(x) <==> (x < n && marked@[x as int]),
                    forall|x: usize| from.contains(x) ==> x < n && marked@[x as int],
                    forall|x: usize| x < n && marked@[x as int] ==> eps_reach(g, from, x),
                    forall|k: int|
                        0 <= k < stack@.len() ==> (#[trigger] stack@[k]) < n && marked@[stack@[k] as int],
                    forall|a: usize, b: usize|
                        a != s && a < n && marked@[a as int] && !stack@.contains(a)
                            && #[trigger] eps_edge(g, a, b) ==> b < n && marked@[b as int],
                    forall|k: int|
                        0 <= k < j && (#[trigger] edges@[k]).0@ == Label::Epsilon ==> edges@[k].1 < n
                            && marked@[edges@[k].1 as int],
                    stack@.len() >= rest.len(),
                    stack@.len() - rest.len() + unseen(marked@) == unseen(old_marked),
                decreases edges@.len() - j,
            {
                let ghost edge = g[s as int][j as int];
                assert(edge == (edges@[j as int].0@, edges@[j as int].1 as int));
                let to = edges[j].1;
                assert(to < n);
                let plain = match &edges[j].0 {
                    Transition::Epsilon => true,
                    _ => false,
                };
                if plain && !marked[to] {
                    let ghost stack_before = stack@;
                    let ghost marks_before = marked@;
                    marked.set(to, true);
                    closure.insert(to);
                    stack.push(to);
                    proof {
                        lemma_unseen_marks(marks_before, to as int);
                        assert(eps_edge(g, s, to));
                        let path = choose|path: Seq<usize>| #[trigger]
                            eps_path(g, path) && from.contains(path[0]) && path.last() == s;
                        let longer = path.push(to);
                        assert forall|i: int| 0 <= i < longer.len() - 1 implies eps_edge(
                            g,
                            #[trigger] longer[i],
                            longer[i + 1],
                        ) by {
                            if i < path.len() - 1 {
                                assert(eps_edge(g, path[i], path[i + 1]));
                            }
                        }
                        assert(eps_path(g, longer) && from.contains(longer[0]) && longer.last() == to);
                        assert forall|a: usize| !stack@.contains(a) implies !stack_before.contains(
                            a,
                        ) by {
                            if stack_before.contains(a) {
                                let k = choose|k: int|
                                    0 <= k < stack_before.len() && stack_before[k] == a;
                                assert(stack@[k] == a);
                            }
                        }
                        assert(stack@[stack@.len() - 1] == to);
                        assert(stack@.contains(to));
                    }
                }
                j += 1;
            }
            proof {
                assert forall|a: usize, b: usize|
                    a < n && marked@[a as int] && !stack@.contains(a) && #[trigger] eps_edge(
                        g,
                        a,
                        b,
                    ) implies b < n && marked@[b as int] by {
                    if a == s {
                        let k = choose|k: int|
                            0 <= k < g[a as int].len() && #[trigger] g[a as int][k] == (
                                Label::Epsilon,
                                b as int,
                            );
                        assert(g[s as int][k] == (edges@[k].0@, edges@[k].1 as int));
                    }
                }
            }
        }
        proof {
            assert forall|s: usize| eps_reach(g, from, s) implies s < n && marked@[s as int] by {
                let path = choose|path: Seq<usize>| #[trigger]
                    eps_path(g, path) && from.contains(path[0]) && path.last() == s;
                lemma_closed_holds(g, from, marked@, path, path.len() - 1);
            }
        }
        closure
    }

    /// The indices of the groups without a name, in declaration order.
    pub fn numbered_groups(&self) -> (r: &[u32])
        requires
            self.wf(),
        ensures
            r@ == numbered_of(self.names()),
    {
        self.groups.numbered_groups()
    }

    /// The number of groups without a name.
    pub fn numbered_group_count(&self) -> (n: usize)
        requires
            self.wf(),
        ensures
            n == numbered_of(self.names()).len(),
    {
        self.groups.numbered_group_count()
    }

    /// The index of the group that the relative backreference `relative`
    /// stands for, if there is such a group.
    pub fn resolve_relative(&self, relative: i32) -> (r: Option<u32>)
        requires
            self.wf(),
        ensures
            r == resolve_relative(self.names(), relative as int),
    {
        match self.groups.resolve_relative_backreference(relative) {
            Ok(k) => Some(k),
            Err(_) => None,
        }
    }

    /// Builds two states with one edge between them.
    fn compile_pair(&mut self, transition: Transition) -> (ends: (StateId, StateId))
        requires
            old(self).wf(),
        ensures
            final(self).made(old(self), ends, pair(old(self).build(), transition@)),
    {
        let start = self.new_state();
        let accept = self.new_state();
        self.add_transition(start, transition, accept);
        (start, accept)
    }

    /// Builds the piece that matches the empty string.
    fn compile_empty(&mut self) -> (ends: (StateId, StateId))
        requires
            old(self).wf(),
        ensures
            final(self).made(old(self), ends, pair(old(self).build(), Label::Epsilon)),
    {
        self.compile_pair(Transition::Epsilon)
    }

    /// Builds the piece that matches the character `c`.
    fn compile_char(&mut self, c: char) -> (ends: (StateId, StateId))
        requires
            old(self).wf(),
        ensures
            final(self).made(old(self), ends, pair(old(self).build(), Label::Char(c))),
    {
        self.compile_pair(Transition::Char(c))
    }

    /// Builds the piece for `.`.
    fn compile_any(&mut self) -> (ends: (StateId, StateId))
        requires
            old(self).wf(),
        ensures
            final(self).made(old(self), ends, pair(old(self).build(), Label::Any)),
    {
        self.compile_pair(Transition::Any)
    }

    /// Builds the piece for a character class.
    fn compile_char_class(&mut self, negated: bool, items: &Vec<ClassItem>) -> (ends: (
        StateId,
        StateId,
    ))
        requires
            old(self).wf(),
        ensures
            final(self).made(
                old(self),
                ends,
                pair(old(self).build(), Label::Class { negated, items: items@ }),
            ),
    {
        self.compile_pair(Transition::CharClass { negated, items: copy_items(items) })
    }

    /// Builds the piece for `^`.
    fn compile_start_anchor(&mut self) -> (ends: (StateId, StateId))
        requires
            old(self).wf(),
        ensures
            final(self).made(old(self), ends, pair(old(self).build(), Label::StartAnchor)),
    {
        self.compile_pair(Transition::StartAnchor)
    }

    /// Builds the piece for `$`.
    fn compile_end_anchor(&mut self) -> (ends: (StateId, StateId))
        requires
            old(self).wf(),
        ensures
            final(self).made(old(self), ends, pair(old(self).build(), Label::EndAnchor)),
    {
        self.compile_pair(Transition::EndAnchor)
    }

    /// Builds the piece for a backreference to group `n`.
    fn compile_backref(&mut self, n: u32) -> (ends: (StateId, StateId))
        requires
            old(self).wf(),
        ensures
            final(self).made(old(self), ends, pair(old(self).build(), Label::Backref(n))),
    {
        self.compile_pair(Transition::Backref(n))
    }

    /// Builds the piece for a relative backreference. Which group it means
    /// is settled when the automaton runs.
    fn compile_backref_relative(&mut self, n: i32) -> (ends: (StateId, StateId))
        requires
            old(self).wf(),
        ensures
            final(self).made(old(self), ends, pair(old(self).build(), Label::BackrefRelative(n))),
    {
        self.compile_pair(Transition::BackrefRelative(n))
    }

    /// Builds the piece for a shorthand class.
    fn compile_shorthand(&mut self, c: char) -> (ends: (StateId, StateId))
        requires
            old(self).wf(),
        ensures
            final(self).made(old(self), ends, pair(old(self).build(), shorthand_label(c))),
    {
        let negated = char_is_upper(c);
        let letter = if negated {
            (c as u8 + 32) as char
        } else {
            c
        };
        let mut items: Vec<ClassItem> = Vec::new();
        items.push(ClassItem::Shorthand(letter));
        assert(items@ =~= seq![ClassItem::Shorthand(letter)]);
        self.compile_pair(Transition::CharClass { negated, items })
    }

    /// Builds the piece for `\b`, or for `\B` if `negated`.
    fn compile_word_boundary(&mut self, negated: bool) -> (ends: (StateId, StateId))
        requires
            old(self).wf(),
        ensures
            final(self).made(
                old(self),
                ends,
                pair(
                    old(self).build(),
                    if negated {
                        Label::NonWordBoundary
                    } else {
                        Label::WordBoundary
                    },
                ),
            ),
    {
        if negated {
            self.compile_pair(Transition::NonWordBoundary)
        } else {
            self.compile_pair(Transition::WordBoundary)
        }
    }

    /// The group that a backreference by the name `name` refers to.
    fn resolve_name(&self, name: &String) -> (target: u32)
        requires
            self.wf(),
        ensures
            target == named_target(self.names(), name@),
    {
        match self.groups.get_by_name(name.as_str()) {
            Some(k) => k,
            None => {
                let digits = chars_of(name.as_str());
                let mut i: usize = 0;
                while i < digits.len() && char_is_digit(digits[i])
                    invariant
                        i <= digits@.len(),
                        forall|j: int| 0 <= j < i ==> is_digit(#[trigger] digits@[j]),
                    decreases digits@.len() - i,
                {
                    i += 1;
                }
                if digits.len() > 0 && i == digits.len() {
                    assert(digits@.subrange(0, digits@.len() as int) =~= digits@);
                    match parse_decimal(&digits, 0, digits.len(), u32::MAX) {
                        Some(n) => n,
                        None => 0,
                    }
                } else {
                    0
                }
            },
        }
    }

    /// Builds the piece for `expr` and returns its entry and its exit.
    fn compile_expr(&mut self, expr: &Expr) -> (ends: (StateId, StateId))
        requires
            old(self).ready(declared(expr@).len()),
        ensures
            final(self).made(
                old(self),
                ends,
                thompson(expr@, old(self).names(), old(self).build()),
            ),
            final(self).next_group() == old(self).next_group() + declared(expr@).len(),
        decreases expr, 0nat,
    {
        match expr {
            Expr::Empty => self.compile_empty(),
            Expr::Literal(c) => self.compile_char(*c),
            Expr::Any => self.compile_any(),
            Expr::Sequence(exprs) => {
                proof {
                    lemma_expr_views(*exprs);
                }
                self.compile_sequence(exprs)
            },
            Expr::Alternation(exprs) => {
                proof {
                    lemma_expr_views(*exprs);
                }
                self.compile_alternation(exprs)
            },
            Expr::CharacterClass(cc) => self.compile_char_class(cc.negated, &cc.items),
            Expr::Quantified { expr: inner, quantifier } => {
                assert(declared(expr@) == declared(inner@));
                self.compile_quantified(inner, *quantifier)
            },
            Expr::Group(inner) => {
                assert(declared(expr@) == seq![None::<Seq<char>>] + declared(inner@));
                self.compile_group(inner)
            },
            Expr::NonCapturingGroup(inner) => {
                assert(declared(expr@) == declared(inner@));
                self.compile_expr(inner)
            },
            Expr::NamedGroup { name, pattern } => {
                assert(declared(expr@) == seq![Some(name@)] + declared(pattern@));
                self.compile_group(pattern)
            },
            Expr::AtomicGroup(inner) => {
                assert(declared(expr@) == declared(inner@));
                self.compile_expr(inner)
            },
            Expr::StartAnchor => self.compile_start_anchor(),
            Expr::EndAnchor => self.compile_end_anchor(),
            Expr::Backreference(n) => self.compile_backref(*n),
            Expr::RelativeBackreference(n) => self.compile_backref_relative(*n),
            Expr::NamedBackreference(name) => {
                let target = self.resolve_name(name);
                self.compile_backref(target)
            },
            Expr::Shorthand(c) => self.compile_shorthand(*c),
            Expr::WordBoundary => self.compile_word_boundary(false),
            Expr::NonWordBoundary => self.compile_word_boundary(true),
            Expr::Lookahead(_) => self.compile_empty(),
            Expr::NegativeLookahead(_) => self.compile_empty(),
            Expr::Lookbehind(_) => self.compile_empty(),
            Expr::NegativeLookbehind(_) => self.compile_empty(),
            Expr::ConditionalGroup(_) => self.compile_empty(),
        }
    }

    /// Builds the pieces of `exprs` one behind the other.
    fn compile_sequence(&mut self, exprs: &Vec<Expr>) -> (ends: (StateId, StateId))
        requires
            old(self).ready(declared_upto(expr_views(*exprs), exprs@.len()).len()),
        ensures
            final(self).made(
                old(self),
                ends,
                if exprs@.len() == 0 {
                    pair(old(self).build(), Label::Epsilon)
                } else {
                    chain(expr_views(*exprs), old(self).names(), old(self).build(), exprs@.len())
                },
            ),
            final(self).next_group() == old(self).next_group() + declared_upto(
                expr_views(*exprs),
                exprs@.len(),
            ).len(),
        decreases exprs, 1nat,
    {
        let ghost es = expr_views(*exprs);
        let ghost names = self.names();
        let ghost base = self.build();
        proof {
            lemma_expr_views(*exprs);
        }
        if exprs.len() == 0 {
            assert(declared_upto(es, 0).len() == 0);
            return self.compile_empty();
        }
        proof {
            lemma_declared_upto_grows(es, 1, exprs@.len());
            assert(declared_upto(es, 0) =~= Names::empty());
            assert(declared_upto(es, 1) =~= declared_upto(es, 0) + declared(es[0]));
            assert(declared_upto(es, 1) =~= declared(es[0]));
        }
        assert(decreases_to!(*exprs => exprs[0]));
        let (first, last) = self.compile_expr(&exprs[0]);
        let mut prev = last;
        let mut i: usize = 1;
        while i < exprs.len()
            invariant
                1 <= i <= exprs@.len(),
                es == expr_views(*exprs),
                es.len() == exprs@.len(),
                forall|j: int| 0 <= j < exprs@.len() ==> es[j] == (#[trigger] exprs@[j])@,
                names == old(self).names(),
                base == old(self).build(),
                old(self).ready(declared_upto(es, exprs@.len()).len()),
                self.made(old(self), (first, prev), chain(es, names, base, i as nat)),
                self.next_group() == old(self).next_group() + declared_upto(es, i as nat).len(),
            decreases exprs@.len() - i,
        {
            proof {
                lemma_declared_upto_grows(es, (i + 1) as nat, exprs@.len());
            }
            assert(decreases_to!(*exprs => exprs[i as int]));
            let (s, a) = self.compile_expr(&exprs[i]);
            self.add_transition(prev, Transition::Epsilon, s);
            prev = a;
            i += 1;
        }
        (first, prev)
    }

    /// Builds the pieces of `exprs` as branches between two new states.
    fn compile_alternation(&mut self, exprs: &Vec<Expr>) -> (ends: (StateId, StateId))
        requires
            old(self).ready(declared_upto(expr_views(*exprs), exprs@.len()).len()),
        ensures
            final(self).made(
                old(self),
                ends,
                thompson(
                    ExprView::Alternation(expr_views(*exprs)),
                    old(self).names(),
                    old(self).build(),
                ),
            ),
            final(self).next_group() == old(self).next_group() + declared_upto(
                expr_views(*exprs),
                exprs@.len(),
            ).len(),
        decreases exprs, 1nat,
    {
        let ghost es = expr_views(*exprs);
        let ghost names = self.names();
        let ghost base = self.build();
        proof {
            lemma_expr_views(*exprs);
        }
        if exprs.len() == 0 {
            assert(declared_upto(es, 0).len() == 0);
            return self.compile_empty();
        }
        if exprs.len() == 1 {
            assert(declared_upto(es, 0) =~= Names::empty());
            assert(declared_upto(es, 1) =~= declared_upto(es, 0) + declared(es[0]));
            assert(declared_upto(es, 1) =~= declared(es[0]));
            assert(decreases_to!(*exprs => exprs[0]));
            return self.compile_expr(&exprs[0]);
        }
        let start = self.new_state();
        let accept = self.new_state();
        let ghost around = self.build();
        let mut i: usize = 0;
        while i < exprs.len()
            invariant
                i <= exprs@.len(),
                es == expr_views(*exprs),
                es.len() == exprs@.len(),
                forall|j: int| 0 <= j < exprs@.len() ==> es[j] == (#[trigger] exprs@[j])@,
                names == old(self).names(),
                base == old(self).build(),
                around == (Build {
                    graph: with_state(with_state(base.graph)),
                    next_group: base.next_group,
                }),
                start == base.graph.len(),
                accept == start + 1,
                old(self).ready(declared_upto(es, exprs@.len()).len()),
                self.extends(
                    old(self),
                    Piece {
                        build: branches(es, names, around, start as int, accept as int, i as nat),
                        start: start as int,
                        accept: accept as int,
                    },
                ),
                self.next_group() == old(self).next_group() + declared_upto(es, i as nat).len(),
            decreases exprs@.len() - i,
        {
            proof {
                lemma_declared_upto_grows(es, (i + 1) as nat, exprs@.len());
            }
            assert(decreases_to!(*exprs => exprs[i as int]));
            let (s, a) = self.compile_expr(&exprs[i]);
            self.add_transition(start, Transition::Epsilon, s);
            self.add_transition(a, Transition::Epsilon, accept);
            i += 1;
        }
        (start, accept)
    }

    /// Builds the loop of the quantifier `quantifier` around the piece of
    /// `expr`, for the quantifiers `*`, `*?`, `+`, `+?` and `?`.
    fn compile_loop(&mut self, expr: &Expr, quantifier: Quantifier) -> (ends: (StateId, StateId))
        requires
            old(self).ready(declared(expr@).len()),
            quantifier is ZeroOrMore || quantifier is ZeroOrMoreLazy || quantifier is OneOrMore
                || quantifier is OneOrMoreLazy || quantifier is Optional,
        ensures
            final(self).made(
                old(self),
                ends,
                looped(thompson(expr@, old(self).names(), old(self).build()), quantifier),
            ),
            final(self).next_group() == old(self).next_group() + declared(expr@).len(),
        decreases expr, 1nat,
    {
        let (inner_start, inner_accept) = self.compile_expr(expr);
        let start = self.new_state();
        let accept = self.new_state();
        match quantifier {
            Quantifier::ZeroOrMore => {
                self.add_transition(start, Transition::Epsilon, inner_start);
                self.add_transition(start, Transition::Epsilon, accept);
                self.add_transition(inner_accept, Transition::Epsilon, inner_start);
                self.add_transition(inner_accept, Transition::Epsilon, accept);
            },
            Quantifier::ZeroOrMoreLazy => {
                self.add_transition(start, Transition::Epsilon, accept);
                self.add_transition(start, Transition::Epsilon, inner_start);
                self.add_transition(inner_accept, Transition::Epsilon, accept);
                self.add_transition(inner_accept, Transition::Epsilon, inner_start);
            },
            Quantifier::OneOrMore => {
                self.add_transition(start, Transition::Epsilon, inner_start);
                self.add_transition(inner_accept, Transition::Epsilon, inner_start);
                self.add_transition(inner_accept, Transition::Epsilon, accept);
            },
            Quantifier::OneOrMoreLazy => {
                self.add_transition(start, Transition::Epsilon, inner_start);
                self.add_transition(inner_accept, Transition::Epsilon, accept);
                self.add_transition(inner_accept, Transition::Epsilon, inner_start);
            },
            _ => {
                self.add_transition(start, Transition::Epsilon, inner_start);
                self.add_transition(start, Transition::Epsilon, accept);
                self.add_transition(inner_accept, Transition::Epsilon, accept);
            },
        }
        (start, accept)
    }

    /// Builds the piece for `expr` under `quantifier`.
    fn compile_quantified(&mut self, expr: &Expr, quantifier: Quantifier) -> (ends: (
        StateId,
        StateId,
    ))
        requires
            old(self).ready(declared(expr@).len()),
        ensures
            final(self).made(
                old(self),
                ends,
                thompson(
                    ExprView::Quantified { expr: Box::new(expr@), quantifier },
                    old(self).names(),
                    old(self).build(),
                ),
            ),
            final(self).next_group() == old(self).next_group() + declared(expr@).len(),
        decreases expr, 3nat,
    {
        match quantifier {
            Quantifier::Exactly(n) => self.compile_repeat_exact(expr, n),
            Quantifier::AtLeast(n) => self.compile_repeat_at_least(expr, n),
            Quantifier::AtLeastLazy(n) => self.compile_repeat_at_least_lazy(expr, n),
            Quantifier::Between(n, m) => self.compile_repeat_between(expr, n, m),
            Quantifier::BetweenLazy(n, m) => self.compile_repeat_between_lazy(expr, n, m),
            _ => self.compile_loop(expr, quantifier),
        }
    }

    /// Builds `n` copies of the piece of `expr` in a row. The groups of
    /// every copy have the indices of those of the first.
    fn compile_repeat_exact(&mut self, expr: &Expr, n: u32) -> (ends: (StateId, StateId))
        requires
            old(self).ready(declared(expr@).len()),
        ensures
            final(self).made(
                old(self),
                ends,
                exact(expr@, old(self).names(), old(self).build(), n as nat),
            ),
            final(self).next_group() == old(self).next_group() + declared(expr@).len(),
        decreases expr, 1nat,
    {
        let first_group = self.next_group_id;
        let ghost names = self.names();
        let ghost base = self.build();
        if n == 0 {
            match GroupCollector::count(expr, 0, u32::MAX as usize) {
                Some(count) => {
                    self.next_group_id = first_group + count as u32;
                },
                None => {},
            }
            let ends = self.compile_empty();
            return ends;
        }
        let (first, last) = self.compile_expr(expr);
        let mut prev = last;
        let mut i: u32 = 1;
        while i < n
            invariant
                1 <= i <= n,
                names == old(self).names(),
                base == old(self).build(),
                first_group == old(self).next_group_id,
                old(self).ready(declared(expr@).len()),
                self.made(old(self), (first, prev), repeat(expr@, names, base, i as nat)),
                self.next_group() == old(self).next_group() + declared(expr@).len(),
            decreases n - i,
        {
            self.next_group_id = first_group;
            let (s, a) = self.compile_expr(expr);
            self.add_transition(prev, Transition::Epsilon, s);
            prev = a;
            i += 1;
        }
        (first, prev)
    }

    /// Builds `n` copies of the piece of `expr` and a loop behind them.
    fn compile_at_least(&mut self, expr: &Expr, n: u32, lazy: bool) -> (ends: (StateId, StateId))
        requires
            old(self).ready(declared(expr@).len()),
        ensures
            final(self).made(
                old(self),
                ends,
                at_least(expr@, old(self).names(), old(self).build(), n as nat, lazy),
            ),
            final(self).next_group() == old(self).next_group() + declared(expr@).len(),
        decreases expr, 2nat, 0nat,
    {
        let first_group = self.next_group_id;
        let (exact_start, exact_accept) = self.compile_repeat_exact(expr, n);
        self.next_group_id = first_group;
        let (star_start, star_accept) = self.compile_loop(
            expr,
            if lazy {
                Quantifier::ZeroOrMoreLazy
            } else {
                Quantifier::ZeroOrMore
            },
        );
        self.add_transition(exact_accept, Transition::Epsilon, star_start);
        (exact_start, star_accept)
    }

    /// Builds the piece for `expr{n,}`.
    fn compile_repeat_at_least(&mut self, expr: &Expr, n: u32) -> (ends: (StateId, StateId))
        requires
            old(self).ready(declared(expr@).len()),
        ensures
            final(self).made(
                old(self),
                ends,
                at_least(expr@, old(self).names(), old(self).build(), n as nat, false),
            ),
            final(self).next_group() == old(self).next_group() + declared(expr@).len(),
        decreases expr, 2nat, 1nat,
    {
        self.compile_at_least(expr, n, false)
    }

    /// Builds the piece for `expr{n,}?`.
    fn compile_repeat_at_least_lazy(&mut self, expr: &Expr, n: u32) -> (ends: (StateId, StateId))
        requires
            old(self).ready(declared(expr@).len()),
        ensures
            final(self).made(
                old(self),
                ends,
                at_least(expr@, old(self).names(), old(self).build(), n as nat, true),
            ),
            final(self).next_group() == old(self).next_group() + declared(expr@).len(),
        decreases expr, 2nat, 1nat,
    {
        self.compile_at_least(expr, n, true)
    }

    /// Builds `n` copies of the piece of `expr` and `m - n` optional ones
    /// behind them.
    fn compile_between(&mut self, expr: &Expr, n: u32, m: u32, lazy: bool) -> (ends: (
        StateId,
        StateId,
    ))
        requires
            old(self).ready(declared(expr@).len()),
        ensures
            final(self).made(
                old(self),
                ends,
                between(expr@, old(self).names(), old(self).build(), n as nat, m as nat, lazy),
            ),
            final(self).next_group() == old(self).next_group() + declared(expr@).len(),
        decreases expr, 2nat, 0nat,
    {
        if m <= n {
            return self.compile_repeat_exact(expr, n);
        }
        let first_group = self.next_group_id;
        let ghost names = self.names();
        let ghost base = self.build();
        let (exact_start, exact_accept) = self.compile_repeat_exact(expr, n);
        let last_group = self.next_group_id;
        let ghost head = exact(expr@, names, base, n as nat);
        let start = self.new_state();
        let accept = self.new_state();
        self.add_transition(start, Transition::Epsilon, exact_start);
        let ghost wired = self.graph();
        let mut prev = exact_accept;
        let mut k: u32 = 0;
        while k < m - n
            invariant
                n < m,
                k <= m - n,
                names == old(self).names(),
                base == old(self).build(),
                first_group == old(self).next_group_id,
                last_group == first_group + declared(expr@).len(),
                old(self).ready(declared(expr@).len()),
                head == exact(expr@, names, base, n as nat),
                start == head.build.graph.len(),
                accept == start + 1,
                exact_accept == head.accept,
                wired == with_edge(
                    with_state(with_state(head.build.graph)),
                    start as int,
                    Label::Epsilon,
                    head.start,
                ),
                (self.graph(), prev as int) == optional_copies(
                    expr@,
                    names,
                    wired,
                    first_group as int,
                    lazy,
                    accept as int,
                    exact_accept as int,
                    k as nat,
                ),
                self.extends(
                    old(self),
                    Piece { build: self.build(), start: start as int, accept: accept as int },
                ),
                prev < self.states@.len(),
                self.next_group_id == last_group,
            decreases m - n - k,
        {
            self.next_group_id = first_group;
            let (s, a) = self.compile_expr(expr);
            if lazy {
                self.add_transition(prev, Transition::Epsilon, accept);
                self.add_transition(prev, Transition::Epsilon, s);
            } else {
                self.add_transition(prev, Transition::Epsilon, s);
                self.add_transition(prev, Transition::Epsilon, accept);
            }
            prev = a;
            k += 1;
        }
        self.add_transition(prev, Transition::Epsilon, accept);
        (start, accept)
    }

    /// Builds the piece for `expr{n,m}`.
    fn compile_repeat_between(&mut self, expr: &Expr, n: u32, m: u32) -> (ends: (StateId, StateId))
        requires
            old(self).ready(declared(expr@).len()),
        ensures
            final(self).made(
                old(self),
                ends,
                between(expr@, old(self).names(), old(self).build(), n as nat, m as nat, false),
            ),
            final(self).next_group() == old(self).next_group() + declared(expr@).len(),
        decreases expr, 2nat, 1nat,
    {
        self.compile_between(expr, n, m, false)
    }

    /// Builds the piece for `expr{n,m}?`.
    fn compile_repeat_between_lazy(&mut self, expr: &Expr, n: u32, m: u32) -> (ends: (
        StateId,
        StateId,
    ))
        requires
            old(self).ready(declared(expr@).len()),
        ensures
            final(self).made(
                old(self),
                ends,
                between(expr@, old(self).names(), old(self).build(), n as nat, m as nat, true),
            ),
            final(self).next_group() == old(self).next_group() + declared(expr@).len(),
        decreases expr, 2nat, 1nat,
    {
        self.compile_between(expr, n, m, true)
    }

    /// Builds the piece for a capturing group around `expr`.
    fn compile_group(&mut self, expr: &Expr) -> (ends: (StateId, StateId))
        requires
            old(self).ready(declared(expr@).len() + 1),
        ensures
            final(self).made(
                old(self),
                ends,
                grouped(expr@, old(self).names(), old(self).build()),
            ),
            final(self).next_group() == old(self).next_group() + declared(expr@).len() + 1,
        decreases expr, 1nat,
    {
        let group_id = self.next_group_id;
        self.next_group_id = self.next_group_id + 1;
        let start = self.new_state();
        let (inner_start, inner_accept) = self.compile_expr(expr);
        let accept = self.new_state();
        self.add_transition(start, Transition::GroupStart(group_id), inner_start);
        self.add_transition(inner_accept, Transition::GroupEnd(group_id), accept);
        (start, accept)
    }
}

} // verus!
