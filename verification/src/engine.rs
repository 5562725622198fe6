//! Matching: the simulation of an automaton on an input.

use crate::ast::{ClassItem, ExprView};
use crate::error::{ParseError, ParseErrorView, RegexError, RegexErrorView};
use crate::grammar::pattern_tree;
use crate::parser::read_pattern;
use crate::numbered::{lemma_automaton_numbered, lemma_machine_groups, numbered_within};
use crate::paths::{lemma_match_spans, spans_between};
use crate::groups::{
    GroupCollector, GroupRegistry, GroupRegistryError, Names, declared, register_all,
    resolve_relative,
};
use crate::nfa::{Nfa, StateId, Transition};
use crate::simulation::{
    Agenda, Caps, Machine, Thread, accepting, backref_len, char_matches, agenda_within,
    caps_within, class_matches, closure, closure_run, crosses, due, edges_of, fire_edges,
    fire_threads, first_match, first_thread, idle_agenda, item_matches, lemma_idle,
    lemma_unseen_marks, match_at, named_spans, reversed, run_from, schedule, stacked,
    threads_within, unseen, word_boundary,
};
use crate::text::{
    char_folded, char_is_digit, char_is_space, char_is_word, chars_of, is_word, str_eq,
};
use vstd::string::*;
use crate::thompson::{Label, automaton};
use std::collections::HashMap;
use vstd::prelude::*;
use vstd::std_specs::hash::*;

verus! {

/// The modes in which a pattern can be matched.
#[derive(Debug, Clone, Copy)]
pub struct ModeFlags {
    /// Letters match whatever their ASCII case.
    pub case_insensitive: bool,
    /// `^` and `$` also match at line feeds.
    pub multiline: bool,
    /// `.` also matches a line feed.
    pub dotall: bool,
    /// Reserved for patterns with free spacing.
    pub extended: bool,
}

impl Default for ModeFlags {
    fn default() -> (m: ModeFlags)
        ensures
            m == ModeFlags::none(),
    {
        ModeFlags { case_insensitive: false, multiline: false, dotall: false, extended: false }
    }
}

impl ModeFlags {
    /// No mode at all.
    pub open spec fn none() -> ModeFlags {
        ModeFlags { case_insensitive: false, multiline: false, dotall: false, extended: false }
    }

    /// The modes that the letters of `flags` name: `i`, `m`, `s` and `x`.
    /// Other characters name nothing.
    pub open spec fn named_by(flags: Seq<char>) -> ModeFlags {
        ModeFlags {
            case_insensitive: flags.contains('i'),
            multiline: flags.contains('m'),
            dotall: flags.contains('s'),
            extended: flags.contains('x'),
        }
    }

    /// The modes that are on in `self` or in `other`.
    pub open spec fn union(self, other: ModeFlags) -> ModeFlags {
        ModeFlags {
            case_insensitive: self.case_insensitive || other.case_insensitive,
            multiline: self.multiline || other.multiline,
            dotall: self.dotall || other.dotall,
            extended: self.extended || other.extended,
        }
    }

    /// The modes that the letters of `flags` name.
    pub fn from_string(flags: &str) -> (m: ModeFlags)
        ensures
            m == ModeFlags::named_by(flags@),
    {
        let letters = chars_of(flags);
        let mut mode = ModeFlags {
            case_insensitive: false,
            multiline: false,
            dotall: false,
            extended: false,
        };
        let mut i: usize = 0;
        while i < letters.len()
            invariant
                i <= letters@.len(),
                mode == ModeFlags::named_by(letters@.take(i as int)),
            decreases letters@.len() - i,
        {
            let c = letters[i];
            let ghost seen = letters@.take(i as int);
            assert(letters@.take(i + 1) =~= seen.push(c));
            assert forall|x: char| seen.push(c).contains(x) == (seen.contains(x) || x == c) by {
                if seen.contains(x) {
                    let k = choose|k: int| 0 <= k < seen.len() && seen[k] == x;
                    assert(seen.push(c)[k] == x);
                }
                if x == c {
                    assert(seen.push(c)[seen.len() as int] == x);
                }
            }
            if c == 'i' {
                mode.case_insensitive = true;
            } else if c == 'm' {
                mode.multiline = true;
            } else if c == 's' {
                mode.dotall = true;
            } else if c == 'x' {
                mode.extended = true;
            }
            i += 1;
        }
        assert(letters@.take(i as int) =~= letters@);
        mode
    }

    /// Switches on the modes that are on in `other`.
    pub fn merge(&mut self, other: &ModeFlags)
        ensures
            *final(self) == old(self).union(*other),
    {
        self.case_insensitive = self.case_insensitive || other.case_insensitive;
        self.multiline = self.multiline || other.multiline;
        self.dotall = self.dotall || other.dotall;
        self.extended = self.extended || other.extended;
    }
}

/// A match: where it starts, where it ends and what its groups captured.
/// All positions count codepoints; a span holds its first position and not
/// its second.
#[derive(Debug, Clone, PartialEq)]
pub struct Match {
    /// The position at which the match starts.
    pub start: usize,
    /// The position just behind the match.
    pub end: usize,
    /// The span of each group that captured, by group index.
    pub groups: HashMap<u32, (usize, usize)>,
    /// The span of each named group that captured, in declaration order.
    pub named_groups: Vec<(String, (usize, usize))>,
}

pub struct MatchView {
    pub start: int,
    pub end: int,
    pub groups: Caps,
    pub named: Seq<(Seq<char>, (usize, usize))>,
}

/// The names of `v` as sequences of codepoints, each with its span.
pub open spec fn named_views(v: Seq<(String, (usize, usize))>) -> Seq<(Seq<char>, (usize, usize))> {
    v.map_values(|p: (String, (usize, usize))| (p.0@, p.1))
}

/// The span of the first entry of `named` from entry `i` on that has the
/// name `name`.
pub open spec fn span_of_name(
    named: Seq<(Seq<char>, (usize, usize))>,
    name: Seq<char>,
    i: int,
) -> Option<(usize, usize)>
    decreases named.len() - i,
{
    if i < 0 || i >= named.len() {
        None
    } else if named[i].0 == name {
        Some(named[i].1)
    } else {
        span_of_name(named, name, i + 1)
    }
}

/// The match of the automaton `m` from `start` to `end` with the captures
/// `caps`.
pub open spec fn match_of(m: Machine, start: int, end: int, caps: Caps) -> MatchView {
    MatchView { start, end, groups: caps, named: named_spans(m.names, caps, 0) }
}

impl View for Match {
    type V = MatchView;

    open spec fn view(&self) -> MatchView {
        MatchView {
            start: self.start as int,
            end: self.end as int,
            groups: self.groups@,
            named: named_views(self.named_groups@),
        }
    }
}

impl Match {
    /// The match and the spans of its groups lie within an input of `len`
    /// codepoints.
    pub open spec fn within(&self, len: nat) -> bool {
        &&& self.start <= self.end <= len
        &&& forall|k: u32|
            self.groups@.contains_key(k) ==> (#[trigger] self.groups@[k]).0 <= self.groups@[k].1
                <= len
        &&& forall|i: int|
            0 <= i < self.named_groups@.len() ==> (#[trigger] self.named_groups@[i]).1.0
                <= self.named_groups@[i].1.1 <= len
    }

    /// The spans of the groups lie within the match, and the groups are
    /// among the first `groups` groups.
    pub open spec fn framed(&self, groups: nat) -> bool {
        &&& spans_between(self.groups@, self.start as int, self.end as int)
        &&& forall|k: u32| self.groups@.contains_key(k) ==> 1 <= k <= groups
    }

    /// The text of the match.
    pub fn as_str<'a>(&self, input: &'a str) -> (text: &'a str)
        requires
            self.start <= self.end <= input@.len(),
        ensures
            text@ == input@.subrange(self.start as int, self.end as int),
    {
        input.substring_char(self.start, self.end)
    }

    /// The span of group `n`, if the group captured.
    pub fn group(&self, n: u32) -> (span: Option<(usize, usize)>)
        ensures
            span == if self.groups@.contains_key(n) {
                Some(self.groups@[n])
            } else {
                None
            },
    {
        broadcast use group_hash_axioms;

        match self.groups.get(&n) {
            Some(span) => Some(*span),
            None => None,
        }
    }

    /// The span of the first group called `name` that captured.
    pub fn named_group(&self, name: &str) -> (span: Option<(usize, usize)>)
        ensures
            span == span_of_name(self@.named, name@, 0),
    {
        let mut i: usize = 0;
        while i < self.named_groups.len()
            invariant
                i <= self.named_groups@.len(),
                span_of_name(self@.named, name@, 0) == span_of_name(self@.named, name@, i as int),
            decreases self.named_groups@.len() - i,
        {
            assert(self@.named[i as int] == (
                self.named_groups@[i as int].0@,
                self.named_groups@[i as int].1,
            ));
            if str_eq(self.named_groups[i].0.as_str(), name) {
                return Some(self.named_groups[i].1);
            }
            i += 1;
        }
        None
    }

    /// The text that group `n` captured, if the group captured.
    pub fn group_str<'a>(&self, input: &'a str, n: u32) -> (text: Option<&'a str>)
        requires
            self.groups@.contains_key(n) ==> self.groups@[n].0 <= self.groups@[n].1 <= input@.len(),
        ensures
            match text {
                Some(t) => self.groups@.contains_key(n) && t@ == input@.subrange(
                    self.groups@[n].0 as int,
                    self.groups@[n].1 as int,
                ),
                None => !self.groups@.contains_key(n),
            },
    {
        match self.group(n) {
            Some((start, end)) => Some(input.substring_char(start, end)),
            None => None,
        }
    }

    /// The text that the first group called `name` captured.
    pub fn named_group_str<'a>(&self, input: &'a str, name: &str) -> (text: Option<&'a str>)
        requires
            forall|i: int|
                0 <= i < self.named_groups@.len() ==> (#[trigger] self.named_groups@[i]).1.0
                    <= self.named_groups@[i].1.1 <= input@.len(),
        ensures
            match text {
                Some(t) => span_of_name(self@.named, name@, 0) is Some && t@ == input@.subrange(
                    span_of_name(self@.named, name@, 0)->Some_0.0 as int,
                    span_of_name(self@.named, name@, 0)->Some_0.1 as int,
                ),
                None => span_of_name(self@.named, name@, 0) is None,
            },
    {
        proof {
            lemma_span_of_name(self@.named, name@, 0);
            assert forall|i: int| 0 <= i < self@.named.len() implies (#[trigger] self@.named[i]).1
                == self.named_groups@[i].1 by {}
        }
        match self.named_group(name) {
            Some((start, end)) => Some(input.substring_char(start, end)),
            None => None,
        }
    }
}

/// A span that a lookup by name gives is the span of one of the entries.
pub proof fn lemma_span_of_name(named: Seq<(Seq<char>, (usize, usize))>, name: Seq<char>, i: int)
    requires
        0 <= i,
    ensures
        span_of_name(named, name, i) is Some ==> exists|k: int|
            i <= k < named.len() && (#[trigger] named[k]).1 == span_of_name(named, name, i)->Some_0,
    decreases named.len() - i,
{
    if i < named.len() {
        if named[i].0 == name {
            assert(named[i].1 == span_of_name(named, name, i)->Some_0);
        } else {
            lemma_span_of_name(named, name, i + 1);
        }
    }
}

/// A thread of a running simulation.
#[derive(Debug, Clone)]
pub struct SimState {
    /// The state that the thread is in.
    pub state_id: StateId,
    /// The spans that the groups have captured on the way.
    pub groups: HashMap<u32, (usize, usize)>,
}

impl View for SimState {
    type V = Thread;

    open spec fn view(&self) -> Thread {
        Thread { state: self.state_id as int, caps: self.groups@ }
    }
}

/// The views of the threads of `v`, in order.
pub open spec fn thread_views(v: Seq<SimState>) -> Seq<Thread> {
    v.map_values(|t: SimState| t@)
}

/// The views of the lists of `v`, in order.
pub open spec fn agenda_view(v: Seq<Vec<SimState>>) -> Agenda {
    v.map_values(|l: Vec<SimState>| thread_views(l@))
}

impl SimState {
    /// A thread in the state `state_id` that has captured nothing.
    pub fn new(state_id: StateId) -> (t: SimState)
        ensures
            t@ == (Thread { state: state_id as int, caps: Map::empty() }),
    {
        SimState { state_id, groups: HashMap::new() }
    }

    /// A thread in the state `state_id` with the captures `groups`.
    pub fn with_groups(state_id: StateId, groups: HashMap<u32, (usize, usize)>) -> (t: SimState)
        ensures
            t@ == (Thread { state: state_id as int, caps: groups@ }),
    {
        SimState { state_id, groups }
    }

    /// A thread like this one.
    pub fn duplicate(&self) -> (t: SimState)
        ensures
            t@ == self@,
    {
        SimState { state_id: self.state_id, groups: self.groups.clone() }
    }
}

/// One attempt to match: an automaton, an input and the position at which
/// the match has to start.
pub struct NfaSimulator<'a> {
    nfa: &'a Nfa,
    input_chars: &'a Vec<char>,
    start_pos: usize,
}

impl<'a> NfaSimulator<'a> {
    /// The automaton can be run and the start is a position of the input.
    pub closed spec fn wf(&self) -> bool {
        &&& self.nfa.runnable()
        &&& self.start_pos <= self.input_chars@.len()
    }

    /// The automaton that is run.
    pub closed spec fn machine(&self) -> Machine {
        self.nfa@
    }

    /// The input.
    pub closed spec fn input(&self) -> Seq<char> {
        self.input_chars@
    }

    /// The position at which the match has to start.
    pub closed spec fn start(&self) -> int {
        self.start_pos as int
    }

    /// An attempt to match `input` with `nfa` from `start_pos` on.
    pub fn new(nfa: &'a Nfa, input: &'a Vec<char>, start_pos: usize) -> (sim: NfaSimulator<'a>)
        requires
            nfa.runnable(),
            start_pos <= input@.len(),
        ensures
            sim.wf(),
            sim.machine() == nfa@,
            sim.input() == input@,
            sim.start() == start_pos,
    {
        NfaSimulator { nfa, input_chars: input, start_pos }
    }

    /// Whether `c` is a word character.
    fn is_word_char(&self, c: char) -> (b: bool)
        ensures
            b == is_word(c),
    {
        char_is_word(c)
    }

    /// Whether just one of the characters around `pos` is a word character.
    fn is_word_boundary(&self, pos: usize) -> (b: bool)
        requires
            pos <= self.input_chars@.len(),
        ensures
            b == word_boundary(self.input_chars@, pos as int),
    {
        let left = pos > 0 && self.is_word_char(self.input_chars[pos - 1]);
        let right = pos < self.input_chars.len() && self.is_word_char(self.input_chars[pos]);
        left != right
    }

    /// Whether the class item `item` holds `c`.
    fn item_holds(&self, item: &ClassItem, c: char) -> (b: bool)
        ensures
            b == item_matches(self.nfa.mode_flags, *item, c),
    {
        let fold = self.nfa.mode_flags.case_insensitive;
        match item {
            ClassItem::Char(wanted) => if fold {
                char_folded(*wanted) == char_folded(c)
            } else {
                *wanted == c
            },
            ClassItem::Range(lo, hi) => (*lo <= c && c <= *hi) || (fold && char_folded(*lo)
                <= char_folded(c) && char_folded(c) <= char_folded(*hi)),
            ClassItem::Shorthand(letter) => {
                let letter = *letter;
                if letter == 'd' {
                    char_is_digit(c)
                } else if letter == 'D' {
                    !char_is_digit(c)
                } else if letter == 'w' {
                    char_is_word(c)
                } else if letter == 'W' {
                    !char_is_word(c)
                } else if letter == 's' {
                    char_is_space(c)
                } else if letter == 'S' {
                    !char_is_space(c)
                } else {
                    false
                }
            },
        }
    }

    /// Whether the transition `transition` matches the character `c`: for
    /// the transitions that consume one character.
    fn transition_matches(&self, transition: &Transition, c: char) -> (b: bool)
        ensures
            b == match transition@ {
                Label::Char(wanted) => char_matches(self.nfa.mode_flags, wanted, c),
                Label::Any => self.nfa.mode_flags.dotall || c != '\n',
                Label::Class { negated, items } => class_matches(
                    self.nfa.mode_flags,
                    negated,
                    items,
                    c,
                ),
                _ => false,
            },
    {
        match transition {
            Transition::Char(wanted) => if self.nfa.mode_flags.case_insensitive {
                char_folded(*wanted) == char_folded(c)
            } else {
                *wanted == c
            },
            Transition::Any => self.nfa.mode_flags.dotall || c != '\n',
            Transition::CharClass { negated, items } => {
                let mut matched = false;
                let mut i: usize = 0;
                while i < items.len() && !matched
                    invariant
                        i <= items@.len(),
                        matched == (exists|k: int|
                            0 <= k < i && item_matches(self.nfa.mode_flags, #[trigger] items@[k], c)),
                    decreases items@.len() - i,
                {
                    if self.item_holds(&items[i], c) {
                        matched = true;
                    }
                    i += 1;
                }
                *negated != matched
            },
            _ => false,
        }
    }

    /// The number of characters that a backreference to `group` consumes at
    /// `pos`, if a copy of what the group captured stands there.
    fn backref_length(&self, groups: &HashMap<u32, (usize, usize)>, group: u32, pos: usize) -> (r:
        Option<usize>)
        requires
            pos <= self.input_chars@.len(),
        ensures
            match r {
                Some(n) => backref_len(self.input_chars@, groups@, group, pos as int) == Some(
                    n as int,
                ),
                None => backref_len(self.input_chars@, groups@, group, pos as int) is None,
            },
    {
        broadcast use group_hash_axioms;

        let span = match groups.get(&group) {
            Some(span) => *span,
            None => {
                return None;
            },
        };
        let (s, e) = span;
        let len = self.input_chars.len();
        if s > e || e > len || e - s > len - pos {
            return None;
        }
        let n = e - s;
        let ghost input = self.input_chars@;
        let mut i: usize = 0;
        while i < n
            invariant
                i <= n,
                n == e - s,
                s <= e <= len,
                pos + n <= len,
                len == self.input_chars@.len(),
                input == self.input_chars@,
                groups@.contains_key(group),
                groups@[group] == (s, e),
                input.subrange(s as int, s + i) == input.subrange(pos as int, pos + i),
            decreases n - i,
        {
            if self.input_chars[s + i] != self.input_chars[pos + i] {
                proof {
                    let a = input.subrange(s as int, e as int);
                    let b = input.subrange(pos as int, pos + n);
                    assert(a[i as int] != b[i as int]);
                }
                return None;
            }
            proof {
                let a = input.subrange(s as int, s + i);
                let b = input.subrange(pos as int, pos + i);
                let a2 = input.subrange(s as int, s + i + 1);
                let b2 = input.subrange(pos as int, pos + i + 1);
                assert(a2 =~= a.push(input[s + i]));
                assert(b2 =~= b.push(input[pos + i]));
            }
            i += 1;
        }
        Some(n)
    }

    /// What it takes to cross an edge with the label `transition` at `pos`
    /// with the captures `groups`: the number of characters consumed and
    /// the captures behind the edge.
    fn try_transition(
        &self,
        transition: &Transition,
        groups: &HashMap<u32, (usize, usize)>,
        pos: usize,
    ) -> (r: Option<(usize, HashMap<u32, (usize, usize)>)>)
        requires
            self.wf(),
            pos <= self.input_chars@.len(),
        ensures
            match r {
                Some((n, caps)) => crosses(
                    self.nfa@,
                    self.input_chars@,
                    pos as int,
                    transition@,
                    groups@,
                ) == Some((n as int, caps@)) && pos + n <= self.input_chars@.len() && (caps_within(
                    groups@,
                    pos as int,
                ) ==> caps_within(caps@, pos + n)),
                None => crosses(self.nfa@, self.input_chars@, pos as int, transition@, groups@)
                    is None,
            },
    {
        broadcast use group_hash_axioms;

        let len = self.input_chars.len();
        match transition {
            Transition::Epsilon => Some((0, groups.clone())),
            Transition::GroupStart(k) => {
                let mut caps = groups.clone();
                caps.insert(*k, (pos, pos));
                Some((0, caps))
            },
            Transition::GroupEnd(k) => {
                let mut caps = groups.clone();
                let opened = match caps.get(k) {
                    Some(span) => Some(span.0),
                    None => None,
                };
                match opened {
                    Some(s) => {
                        caps.insert(*k, (s, pos));
                    },
                    None => {},
                }
                Some((0, caps))
            },
            Transition::Backref(k) => match self.backref_length(groups, *k, pos) {
                Some(n) => Some((n, groups.clone())),
                None => None,
            },
            Transition::BackrefRelative(r) => match self.nfa.resolve_relative(*r) {
                Some(k) => match self.backref_length(groups, k, pos) {
                    Some(n) => Some((n, groups.clone())),
                    None => None,
                },
                None => None,
            },
            Transition::StartAnchor => {
                let passes = pos == 0 || (self.nfa.mode_flags.multiline && pos > 0
                    && self.input_chars[pos - 1] == '\n');
                if passes {
                    Some((0, groups.clone()))
                } else {
                    None
                }
            },
            Transition::EndAnchor => {
                let passes = pos == len || (self.nfa.mode_flags.multiline && pos < len
                    && self.input_chars[pos] == '\n');
                if passes {
                    Some((0, groups.clone()))
                } else {
                    None
                }
            },
            Transition::WordBoundary => if self.is_word_boundary(pos) {
                Some((0, groups.clone()))
            } else {
                None
            },
            Transition::NonWordBoundary => if !self.is_word_boundary(pos) {
                Some((0, groups.clone()))
            } else {
                None
            },
            _ => {
                if pos < len && self.transition_matches(transition, self.input_chars[pos]) {
                    Some((1, groups.clone()))
                } else {
                    None
                }
            },
        }
    }

    /// The edges of a state, as the run sees them.
    proof fn lemma_edges(&self, state: int)
        requires
            0 <= state < self.nfa.states@.len(),
        ensures
            edges_of(self.nfa@, state).len() == self.nfa.states@[state].transitions@.len(),
            forall|j: int|
                0 <= j < self.nfa.states@[state].transitions@.len() ==> #[trigger] edges_of(
                    self.nfa@,
                    state,
                )[j] == (
                    self.nfa.states@[state].transitions@[j].0@,
                    self.nfa.states@[state].transitions@[j].1 as int,
                ),
    {
    }

    /// The threads at `pos` that `states` lead to without consuming
    /// anything, in the order of preference and one per state.
    fn epsilon_closure(&self, states: &Vec<SimState>, pos: usize) -> (out: Vec<SimState>)
        requires
            self.wf(),
            pos <= self.input_chars@.len(),
        ensures
            thread_views(out@) == closure(
                self.nfa@,
                self.input_chars@,
                pos as int,
                thread_views(states@),
            ),
            forall|i: int| 0 <= i < out@.len() ==> (#[trigger] out@[i]).state_id < self.nfa.states@.len(),
            threads_within(thread_views(states@), pos as int) ==> threads_within(
                thread_views(out@),
                pos as int,
            ),
    {
        let n = self.nfa.states.len();
        let ghost m = self.nfa@;
        let ghost input = self.input_chars@;
        let ghost seeds = thread_views(states@);
        let ghost tidy = threads_within(seeds, pos as int);
        let mut seen: Vec<bool> = Vec::new();
        let mut i: usize = 0;
        while i < n
            invariant
                i <= n,
                seen@.len() == i,
                forall|k: int| 0 <= k < i ==> !(#[trigger] seen@[k]),
            decreases n - i,
        {
            seen.push(false);
            i += 1;
        }
        assert(seen@ =~= Seq::new(m.graph.len(), |i: int| false));
        let mut stack: Vec<SimState> = Vec::new();
        let mut j: usize = states.len();
        assert(seeds.subrange(j as int, seeds.len() as int) =~= Seq::<Thread>::empty());
        assert(thread_views(stack@) =~= reversed(Seq::<Thread>::empty()));
        while j > 0
            invariant
                j <= states@.len(),
                seeds == thread_views(states@),
                thread_views(stack@) == reversed(seeds.subrange(j as int, seeds.len() as int)),
                tidy == threads_within(seeds, pos as int),
                tidy ==> threads_within(thread_views(stack@), pos as int),
            decreases j,
        {
            j -= 1;
            let ghost below = thread_views(stack@);
            stack.push(states[j].duplicate());
            proof {
                let tail = seeds.subrange(j as int, seeds.len() as int);
                assert(tail.drop_first() =~= seeds.subrange(j + 1, seeds.len() as int));
                assert(tail[0] == states@[j as int]@);
                assert(thread_views(stack@) =~= below.push(states@[j as int]@));
            }
        }
        assert(seeds.subrange(0, seeds.len() as int) =~= seeds);
        let mut out: Vec<SimState> = Vec::new();
        assert(thread_views(out@) =~= Seq::<Thread>::empty());
        while stack.len() > 0
            invariant
                self.wf(),
                pos <= self.input_chars@.len(),
                n == self.nfa.states@.len(),
                m == self.nfa@,
                input == self.input_chars@,
                seen@.len() == n,
                closure(m, input, pos as int, seeds) == closure_run(
                    m,
                    input,
                    pos as int,
                    thread_views(stack@),
                    seen@,
                    thread_views(out@),
                ),
                forall|i: int| 0 <= i < out@.len() ==> (#[trigger] out@[i]).state_id < n,
                tidy ==> threads_within(thread_views(stack@), pos as int),
                tidy ==> threads_within(thread_views(out@), pos as int),
            decreases unseen(seen@), stack@.len(),
        {
            let ghost all = thread_views(stack@);
            let ghost done = thread_views(out@);
            let ghost marks = seen@;
            let t = match stack.pop() {
                Some(t) => t,
                None => {
                    assert(false);
                    return out;
                },
            };
            let ghost rest = thread_views(stack@);
            proof {
                assert(all.last() == t@);
                assert(all.drop_last() =~= rest);
            }
            if t.state_id < n && !seen[t.state_id] {
                seen.set(t.state_id, true);
                proof {
                    lemma_unseen_marks(marks, t.state_id as int);
                    self.lemma_edges(t.state_id as int);
                }
                let edges = &self.nfa.states[t.state_id].transitions;
                let mut k: usize = edges.len();
                while k > 0
                    invariant
                        self.wf(),
                        pos <= self.input_chars@.len(),
                        m == self.nfa@,
                        input == self.input_chars@,
                        t.state_id < self.nfa.states@.len(),
                        *edges == self.nfa.states@[t.state_id as int].transitions,
                        k <= edges@.len(),
                        edges_of(m, t@.state).len() == edges@.len(),
                        forall|j: int|
                            0 <= j < edges@.len() ==> #[trigger] edges_of(m, t@.state)[j] == (
                                edges@[j].0@,
                                edges@[j].1 as int,
                            ),
                        thread_views(stack@) == stacked(m, input, pos as int, t@, rest, k as int),
                        tidy ==> caps_within(t@.caps, pos as int),
                        tidy ==> threads_within(thread_views(stack@), pos as int),
                    decreases k,
                {
                    k -= 1;
                    let ghost below = thread_views(stack@);
                    match self.try_transition(&edges[k].0, &t.groups, pos) {
                        Some((taken, caps)) => {
                            if taken == 0 {
                                let next = SimState::with_groups(edges[k].1, caps);
                                stack.push(next);
                                assert(thread_views(stack@) =~= below.push(next@));
                            }
                        },
                        None => {},
                    }
                    assert(edges_of(m, t@.state)[k as int] == (edges@[k as int].0@, edges@[k as int].1 as int));
                }
                let ghost grown = thread_views(out@);
                out.push(t);
                assert(thread_views(out@) =~= grown.push(t@));
            }
        }
        out
    }

    /// Puts the threads that `states` lead to by consuming input at `pos`
    /// on the agenda, each where its edge ends. `furthest` is a position
    /// behind which nothing is due; so is the result.
    fn step_with_backrefs(
        &self,
        states: &Vec<SimState>,
        pos: usize,
        agenda: &mut Vec<Vec<SimState>>,
        furthest: usize,
    ) -> (reach: usize)
        requires
            self.wf(),
            pos <= self.input_chars@.len(),
            old(agenda)@.len() == self.input_chars@.len(),
            furthest <= self.input_chars@.len(),
            forall|i: int| 0 <= i < states@.len() ==> (#[trigger] states@[i]).state_id < self.nfa.states@.len(),
            forall|p: int| furthest <= p < old(agenda)@.len() ==> (#[trigger] old(agenda)@[p])@.len() == 0,
        ensures
            final(agenda)@.len() == old(agenda)@.len(),
            agenda_view(final(agenda)@) == fire_threads(
                self.nfa@,
                self.input_chars@,
                pos as int,
                thread_views(states@),
                0,
                agenda_view(old(agenda)@),
            ),
            furthest <= reach <= self.input_chars@.len(),
            forall|p: int| reach <= p < final(agenda)@.len() ==> (#[trigger] final(agenda)@[p])@.len() == 0,
            threads_within(thread_views(states@), pos as int) && agenda_within(
                agenda_view(old(agenda)@),
            ) ==> agenda_within(agenda_view(final(agenda)@)),
    {
        let ghost tidy = threads_within(thread_views(states@), pos as int) && agenda_within(
            agenda_view(old(agenda)@),
        );
        let ghost m = self.nfa@;
        let ghost input = self.input_chars@;
        let ghost threads = thread_views(states@);
        let mut reach = furthest;
        let mut i: usize = 0;
        while i < states.len()
            invariant
                self.wf(),
                pos <= self.input_chars@.len(),
                m == self.nfa@,
                input == self.input_chars@,
                threads == thread_views(states@),
                i <= states@.len(),
                agenda@.len() == input.len(),
                forall|i: int| 0 <= i < states@.len() ==> (#[trigger] states@[i]).state_id < self.nfa.states@.len(),
                furthest <= reach <= input.len(),
                forall|p: int| reach <= p < agenda@.len() ==> (#[trigger] agenda@[p])@.len() == 0,
                tidy ==> threads_within(threads, pos as int),
                tidy ==> agenda_within(agenda_view(agenda@)),
                fire_threads(m, input, pos as int, threads, 0, agenda_view(old(agenda)@))
                    == fire_threads(m, input, pos as int, threads, i as int, agenda_view(agenda@)),
            decreases states@.len() - i,
        {
            let t = &states[i];
            let ghost before = agenda_view(agenda@);
            assert(threads[i as int] == t@);
            proof {
                self.lemma_edges(t.state_id as int);
            }
            let edges = &self.nfa.states[t.state_id].transitions;
            let mut j: usize = 0;
            while j < edges.len()
                invariant
                    self.wf(),
                    pos <= self.input_chars@.len(),
                    m == self.nfa@,
                    input == self.input_chars@,
                    j <= edges@.len(),
                    agenda@.len() == input.len(),
                    tidy ==> caps_within(t@.caps, pos as int),
                    tidy ==> agenda_within(agenda_view(agenda@)),
                    t.state_id < self.nfa.states@.len(),
                    *edges == self.nfa.states@[t.state_id as int].transitions,
                    edges_of(m, t@.state).len() == edges@.len(),
                    forall|j: int|
                        0 <= j < edges@.len() ==> #[trigger] edges_of(m, t@.state)[j] == (
                            edges@[j].0@,
                            edges@[j].1 as int,
                        ),
                    furthest <= reach <= input.len(),
                    forall|p: int| reach <= p < agenda@.len() ==> (#[trigger] agenda@[p])@.len() == 0,
                    fire_edges(m, input, pos as int, t@, 0, before) == fire_edges(
                        m,
                        input,
                        pos as int,
                        t@,
                        j as int,
                        agenda_view(agenda@),
                    ),
                decreases edges@.len() - j,
            {
                let ghost current = agenda_view(agenda@);
                assert(edges_of(m, t@.state)[j as int] == (edges@[j as int].0@, edges@[j as int].1 as int));
                match self.try_transition(&edges[j].0, &t.groups, pos) {
                    Some((taken, caps)) => {
                        if taken > 0 {
                            let next = SimState::with_groups(edges[j].1, caps);
                            let len = self.input_chars.len();
                            let at = pos + taken;
                            let ghost list = agenda@[at - 1]@;
                            agenda[at - 1].push(next);
                            if at > reach {
                                reach = at;
                            }
                            proof {
                                let updated = schedule(current, at as int, next@);
                                let now = agenda_view(agenda@);
                                assert(now.len() == updated.len());
                                assert forall|p: int| 0 <= p < now.len() implies now[p] =~= updated[p] by {
                                    if p == at - 1 {
                                        assert(agenda@[p]@ =~= list.push(next));
                                        assert(thread_views(agenda@[p]@) =~= thread_views(list).push(next@));
                                    } else {
                                        assert(now[p] == thread_views(agenda@[p]@));
                                    }
                                }
                                assert(now =~= updated);
                                if tidy {
                                    assert forall|p: int| 0 <= p < now.len() implies threads_within(
                                        #[trigger] now[p],
                                        p + 1,
                                    ) by {
                                        assert(threads_within(current[p], p + 1));
                                    }
                                }
                            }
                        }
                    },
                    None => {},
                }
                j += 1;
            }
            i += 1;
        }
        reach
    }

    /// The captures of the first thread of `states` that is in the
    /// accepting state.
    fn find_accepting(&self, states: &Vec<SimState>) -> (r: Option<HashMap<u32, (usize, usize)>>)
        ensures
            match r {
                Some(caps) => accepting(self.nfa@, thread_views(states@), 0) == Some(caps@),
                None => accepting(self.nfa@, thread_views(states@), 0) is None,
            },
            forall|bound: int| #[trigger]
                threads_within(thread_views(states@), bound) && r is Some ==> caps_within(
                    r->Some_0@,
                    bound,
                ),
    {
        let ghost threads = thread_views(states@);
        let mut i: usize = 0;
        while i < states.len()
            invariant
                i <= states@.len(),
                threads == thread_views(states@),
                accepting(self.nfa@, threads, 0) == accepting(self.nfa@, threads, i as int),
            decreases states@.len() - i,
        {
            assert(threads[i as int] == states@[i as int]@);
            if states[i].state_id == self.nfa.accept {
                let caps = states[i].groups.clone();
                assert forall|bound: int| #[trigger]
                    threads_within(threads, bound) implies caps_within(caps@, bound) by {
                    assert(caps_within(threads[i as int].caps, bound));
                }
                return Some(caps);
            }
            i += 1;
        }
        None
    }

    /// The named groups of the automaton that hold a span in `caps`, each
    /// with its span, in declaration order.
    fn named_captures(&self, caps: &HashMap<u32, (usize, usize)>) -> (named: Vec<
        (String, (usize, usize)),
    >)
        requires
            self.wf(),
        ensures
            named_views(named@) == named_spans(self.nfa@.names, caps@, 0),
            forall|bound: int| #[trigger]
                caps_within(caps@, bound) ==> forall|i: int|
                    0 <= i < named@.len() ==> (#[trigger] named@[i]).1.0 <= named@[i].1.1 <= bound,
    {
        broadcast use group_hash_axioms;

        let ghost names = self.nfa@.names;
        let infos = self.nfa.groups.groups();
        proof {
            self.nfa.groups.lemma_infos();
        }
        let mut named: Vec<(String, (usize, usize))> = Vec::new();
        let mut k: usize = 0;
        assert(named_views(named@) =~= Seq::empty());
        while k < infos.len()
            invariant
                k <= infos@.len(),
                names == self.nfa@.names,
                infos@.len() == names.len(),
                names.len() <= u32::MAX,
                forall|i: int|
                    0 <= i < names.len() ==> (#[trigger] infos@[i]).index == i + 1
                        && infos@[i].name_view() == names[i],
                named_spans(names, caps@, 0) == named_views(named@) + named_spans(
                    names,
                    caps@,
                    k as int,
                ),
                forall|i: int|
                    0 <= i < named@.len() ==> exists|g: u32|
                        caps@.contains_key(g) && caps@[g] == (#[trigger] named@[i]).1,
            decreases infos@.len() - k,
        {
            let info = &infos[k];
            let ghost so_far = named_views(named@);
            let ghost rest = named_spans(names, caps@, k + 1);
            match &info.name {
                Some(name) => {
                    match caps.get(&info.index) {
                        Some(span) => {
                            named.push((name.clone(), *span));
                            proof {
                                assert(named_views(named@) =~= so_far.push((name@, *span)));
                                assert(so_far + (seq![(name@, *span)] + rest) =~= so_far.push(
                                    (name@, *span),
                                ) + rest);
                                assert(caps@.contains_key(info.index) && caps@[info.index] == *span);
                            }
                        },
                        None => {},
                    }
                },
                None => {},
            }
            k += 1;
        }
        assert(named_views(named@) + Seq::empty() =~= named_views(named@));
        named
    }

    /// Runs the automaton from the start position and returns the longest
    /// match that starts there.
    pub fn run(&self) -> (r: Option<Match>)
        requires
            self.wf(),
        ensures
            match r {
                Some(found) => {
                    &&& match_at(self.machine(), self.input(), self.start()) is Some
                    &&& found@ == match_of(
                        self.machine(),
                        self.start(),
                        match_at(self.machine(), self.input(), self.start())->Some_0.0,
                        match_at(self.machine(), self.input(), self.start())->Some_0.1,
                    )
                    &&& found.within(self.input().len())
                },
                None => match_at(self.machine(), self.input(), self.start()) is None,
            },
    {
        let ghost m = self.nfa@;
        let ghost input = self.input_chars@;
        let len = self.input_chars.len();
        let start = self.start_pos;
        let mut agenda: Vec<Vec<SimState>> = Vec::new();
        let mut p: usize = 0;
        while p < len
            invariant
                p <= len,
                agenda@.len() == p,
                forall|i: int| 0 <= i < p ==> (#[trigger] agenda@[i])@.len() == 0,
            decreases len - p,
        {
            agenda.push(Vec::new());
            p += 1;
        }
        proof {
            assert(agenda_view(agenda@) =~= idle_agenda(input)) by {
                assert forall|i: int| 0 <= i < agenda@.len() implies #[trigger] agenda_view(
                    agenda@,
                )[i] =~= Seq::<Thread>::empty() by {
                    assert(thread_views(agenda@[i]@).len() == 0);
                }
            }
        }
        let mut seeds: Vec<SimState> = Vec::new();
        seeds.push(SimState::new(self.nfa.start));
        assert(thread_views(seeds@) =~= seq![first_thread(m)]);
        assert(threads_within(thread_views(seeds@), start as int));
        let threads = self.epsilon_closure(&seeds, start);
        let mut best: Option<(usize, HashMap<u32, (usize, usize)>)> = None;
        match self.find_accepting(&threads) {
            Some(caps) => {
                best = Some((start, caps));
            },
            None => {},
        }
        let mut reach = self.step_with_backrefs(&threads, start, &mut agenda, start);
        let mut pos = start;
        while pos < reach
            invariant
                self.wf(),
                m == self.nfa@,
                input == self.input_chars@,
                len == input.len(),
                start == self.start_pos,
                start <= pos <= reach <= len,
                agenda@.len() == len,
                agenda_within(agenda_view(agenda@)),
                forall|p: int| reach <= p < agenda@.len() ==> (#[trigger] agenda@[p])@.len() == 0,
                best_view(best) is Some ==> start <= best_view(best)->Some_0.0 <= pos && caps_within(
                    best_view(best)->Some_0.1,
                    best_view(best)->Some_0.0,
                ),
                match_at(m, input, start as int) == run_from(
                    m,
                    input,
                    pos + 1,
                    due(agenda_view(agenda@), pos + 1),
                    agenda_view(agenda@),
                    best_view(best),
                ),
            decreases len - pos,
        {
            pos += 1;
            assert(due(agenda_view(agenda@), pos as int) == thread_views(agenda@[pos - 1]@));
            assert(threads_within(agenda_view(agenda@)[pos - 1], pos as int));
            let threads = self.epsilon_closure(&agenda[pos - 1], pos);
            match self.find_accepting(&threads) {
                Some(caps) => {
                    best = Some((pos, caps));
                },
                None => {},
            }
            reach = self.step_with_backrefs(&threads, pos, &mut agenda, reach);
        }
        proof {
            let later = agenda_view(agenda@);
            assert forall|p: int| pos + 1 <= p implies due(later, p).len() == 0 by {
                if p <= later.len() {
                    assert(later[p - 1] == thread_views(agenda@[p - 1]@));
                }
            }
            lemma_idle(m, input, pos + 1, later, best_view(best));
        }
        match best {
            Some((end, groups)) => {
                let named_groups = self.named_captures(&groups);
                assert(caps_within(groups@, end as int));
                Some(Match { start, end, groups, named_groups })
            },
            None => None,
        }
    }
}

/// The best match so far as the run of the automaton sees it.
pub open spec fn best_view(best: Option<(usize, HashMap<u32, (usize, usize)>)>) -> Option<
    (int, Caps),
> {
    match best {
        Some((end, caps)) => Some((end as int, caps@)),
        None => None,
    }
}

/// The leftmost match of `m` in `input` that starts at `from` or later.
pub open spec fn found(m: Machine, input: Seq<char>, from: int) -> Option<MatchView> {
    match first_match(m, input, from) {
        Some(k) => Some(
            match_of(m, k, match_at(m, input, k)->Some_0.0, match_at(m, input, k)->Some_0.1),
        ),
        None => None,
    }
}

/// The matches of `m` in `input` from `pos` on, from left to right, none
/// reaching into the next. Behind a match the search goes on where the match
/// ends, and one position further if the match is empty.
pub open spec fn all_matches(m: Machine, input: Seq<char>, pos: int) -> Seq<MatchView>
    decreases input.len() + 1 - pos,
{
    if pos < 0 || pos > input.len() {
        Seq::empty()
    } else {
        match match_at(m, input, pos) {
            Some((end, caps)) => seq![match_of(m, pos, end, caps)] + all_matches(
                m,
                input,
                if pos < end <= input.len() {
                    end
                } else {
                    pos + 1
                },
            ),
            None => all_matches(m, input, pos + 1),
        }
    }
}

/// The views of the matches of `v`, in order.
pub open spec fn match_views(v: Seq<Match>) -> Seq<MatchView> {
    v.map_values(|x: Match| x@)
}

/// What the first match from `from` on is: a match starts there, and none
/// starts between `from` and there; or no match starts at `from` or later.
pub proof fn lemma_first_match(m: Machine, input: Seq<char>, from: int)
    requires
        0 <= from,
    ensures
        match first_match(m, input, from) {
            Some(k) => from <= k <= input.len() && match_at(m, input, k) is Some && forall|j: int|
                from <= j < k ==> #[trigger] match_at(m, input, j) is None,
            None => forall|j: int| from <= j ==> #[trigger] match_at(m, input, j) is None,
        },
    decreases input.len() + 1 - from,
{
    if from <= input.len() {
        if match_at(m, input, from) is None {
            lemma_first_match(m, input, from + 1);
        }
    }
}

/// The automaton of the syntax tree `ast`, to be run in the modes `flags`.
pub open spec fn machine_of(ast: ExprView, flags: ModeFlags) -> Machine {
    Machine {
        graph: automaton(ast).build.graph,
        start: automaton(ast).start,
        accept: automaton(ast).accept,
        names: declared(ast),
        flags,
    }
}

/// What compiling the pattern `pattern` gives: its automaton, or the error
/// of reading it, or the error for a name that two groups carry.
pub open spec fn compiled(pattern: Seq<char>, flags: ModeFlags) -> Result<Machine, RegexErrorView> {
    match pattern_tree(pattern) {
        Err(e) => Err(e),
        Ok(ast) => if declared(ast).len() > GroupRegistry::capacity() {
            Err(RegexErrorView::Compile("too many groups"@))
        } else {
            match register_all(Names::empty(), declared(ast)).1 {
                Some(name) => Err(RegexErrorView::Parse(ParseErrorView::DuplicateGroupName(name))),
                None => Ok(machine_of(ast, flags)),
            }
        },
    }
}

/// A compiled pattern.
pub struct Regex {
    nfa: Nfa,
}

impl Regex {
    #[verifier::type_invariant]
    spec fn runnable(self) -> bool {
        &&& self.nfa.runnable()
        &&& numbered_within(self.nfa.graph(), 1, 1 + self.nfa.names().len() as int)
    }

    /// The automaton of the pattern.
    pub closed spec fn machine(&self) -> Machine {
        self.nfa@
    }

    /// Compiles `pattern`, to be matched in no special mode.
    pub fn new(pattern: &str) -> (r: Result<Regex, RegexError>)
        ensures
            match r {
                Ok(regex) => compiled(pattern@, ModeFlags::none()) == Ok::<Machine, RegexErrorView>(
                    regex.machine(),
                ),
                Err(e) => compiled(pattern@, ModeFlags::none()) == Err::<Machine, RegexErrorView>(
                    e@,
                ),
            },
    {
        Regex::with_flags(pattern, ModeFlags::default())
    }

    /// Compiles `pattern`, to be matched in the modes `flags`.
    pub fn with_flags(pattern: &str, flags: ModeFlags) -> (r: Result<Regex, RegexError>)
        ensures
            match r {
                Ok(regex) => compiled(pattern@, flags) == Ok::<Machine, RegexErrorView>(
                    regex.machine(),
                ),
                Err(e) => compiled(pattern@, flags) == Err::<Machine, RegexErrorView>(e@),
            },
    {
        let ast = match read_pattern(pattern) {
            Ok(ast) => ast,
            Err(e) => {
                return Err(e);
            },
        };
        match GroupCollector::count(&ast, 0, 0xffff_fffe) {
            Some(_) => {},
            None => {
                return Err(RegexError::Compile(String::from_str("too many groups")));
            },
        }
        let mut registry = GroupRegistry::new();
        match GroupCollector::collect(&ast, &mut registry) {
            Ok(()) => {},
            Err(e) => {
                match e {
                    GroupRegistryError::DuplicateGroupName(name) => {
                        return Err(RegexError::Parse(ParseError::DuplicateGroupName(name)));
                    },
                    _ => {
                        assert(false);
                        return Err(RegexError::Compile(String::from_str("too many groups")));
                    },
                }
            },
        }
        let mut nfa = Nfa::from_expr(&ast);
        let ghost plain = nfa;
        nfa.mode_flags = flags;
        assert(nfa.graph() == plain.graph());
        proof {
            lemma_automaton_numbered(ast@);
        }
        Ok(Regex { nfa })
    }

    /// Whether the pattern matches somewhere in `input`.
    pub fn is_match(&self, input: &str) -> (b: bool)
        ensures
            b == found(self.machine(), input@, 0) is Some,
            b == exists|k: int| 0 <= k <= input@.len() && match_at(self.machine(), input@, k) is Some,
    {
        self.find(input).is_some()
    }

    /// The leftmost match in `input`: the match that starts at the first
    /// position at which any match starts.
    pub fn find(&self, input: &str) -> (r: Option<Match>)
        ensures
            match r {
                Some(m) => found(self.machine(), input@, 0) == Some(m@) && m.within(input@.len()),
                None => found(self.machine(), input@, 0) is None,
            },
            r is None <==> forall|k: int|
                0 <= k <= input@.len() ==> #[trigger] match_at(self.machine(), input@, k) is None,
            r is Some ==> match_at(self.machine(), input@, r->Some_0.start as int) is Some
                && forall|j: int|
                0 <= j < r->Some_0.start ==> #[trigger] match_at(self.machine(), input@, j) is None,
            r is Some ==> r->Some_0.framed(self.machine().names.len()),
    {
        proof {
            use_type_invariant(self);
            lemma_first_match(self.machine(), input@, 0);
        }
        let chars = chars_of(input);
        let len = chars.len();
        let r = self.find_from(&chars, 0);
        proof {
            if r is Some {
                let k = first_match(self.machine(), input@, 0)->Some_0;
                assert(chars@.len() == len);
                lemma_match_spans(self.machine(), input@, k);
                lemma_machine_groups(
                    self.machine(),
                    input@,
                    k,
                    1,
                    1 + self.machine().names.len() as int,
                );
            }
            if r is None {
                assert forall|k: int| 0 <= k <= input@.len() implies #[trigger] match_at(
                    self.machine(),
                    input@,
                    k,
                ) is None by {}
            } else {
                let k = first_match(self.machine(), input@, 0)->Some_0;
                assert(match_at(self.machine(), input@, k) is Some);
            }
        }
        r
    }

    /// The leftmost match in `input` that starts at `from` or later.
    fn find_from(&self, input: &Vec<char>, from: usize) -> (r: Option<Match>)
        requires
            from <= input@.len(),
        ensures
            match r {
                Some(m) => found(self.machine(), input@, from as int) == Some(m@) && m.within(
                    input@.len(),
                ) && from <= m.start,
                None => found(self.machine(), input@, from as int) is None,
            },
    {
        let len = input.len();
        let mut start = from;
        loop
            invariant
                from <= start <= len,
                len == input@.len(),
                first_match(self.machine(), input@, from as int) == first_match(
                    self.machine(),
                    input@,
                    start as int,
                ),
            decreases len - start,
        {
            match self.match_from(input, start) {
                Some(m) => {
                    return Some(m);
                },
                None => {},
            }
            if start == len {
                assert(first_match(self.machine(), input@, start + 1) is None);
                return None;
            }
            start += 1;
        }
    }

    /// All matches in `input`, from left to right. No match reaches into
    /// the next; behind an empty match the search goes on one position
    /// further.
    pub fn find_all(&self, input: &str) -> (matches: Vec<Match>)
        ensures
            match_views(matches@) == all_matches(self.machine(), input@, 0),
            forall|i: int| 0 <= i < matches@.len() ==> (#[trigger] matches@[i]).within(input@.len()),
            forall|i: int, j: int|
                0 <= i < j < matches@.len() ==> (#[trigger] matches@[i]).end <= (
                #[trigger] matches@[j]).start && matches@[i].start < matches@[j].start,
            forall|i: int|
                0 <= i < matches@.len() ==> (#[trigger] matches@[i]).framed(
                    self.machine().names.len(),
                ),
    {
        let chars = chars_of(input);
        let len = chars.len();
        let ghost m = self.machine();
        let mut matches: Vec<Match> = Vec::new();
        let mut pos: usize = 0;
        assert(match_views(matches@) =~= Seq::<MatchView>::empty());
        loop
            invariant
                pos <= len,
                len == input@.len(),
                chars@ == input@,
                m == self.machine(),
                all_matches(m, input@, 0) == match_views(matches@) + all_matches(
                    m,
                    input@,
                    pos as int,
                ),
                forall|i: int| 0 <= i < matches@.len() ==> (#[trigger] matches@[i]).within(len as nat),
                forall|i: int| 0 <= i < matches@.len() ==> (#[trigger] matches@[i]).framed(m.names.len()),
                forall|i: int|
                    0 <= i < matches@.len() ==> (#[trigger] matches@[i]).end <= pos
                        && matches@[i].start < pos,
                forall|i: int, j: int|
                    0 <= i < j < matches@.len() ==> (#[trigger] matches@[i]).end <= (
                    #[trigger] matches@[j]).start && matches@[i].start < matches@[j].start,
            decreases len - pos,
        {
            let ghost so_far = match_views(matches@);
            let ghost here = pos as int;
            let next = match self.match_from(&chars, pos) {
                Some(found) => {
                    let end = found.end;
                    proof {
                        let rest = all_matches(m, input@, if here < end { end as int } else { here + 1 });
                        assert(so_far + (seq![found@] + rest) =~= so_far.push(found@) + rest);
                    }
                    matches.push(found);
                    assert(match_views(matches@) =~= so_far.push(found@));
                    if end > pos {
                        end
                    } else if pos < len {
                        pos + 1
                    } else {
                        assert(all_matches(m, input@, here + 1) =~= Seq::<MatchView>::empty());
                        assert(match_views(matches@) + Seq::<MatchView>::empty() =~= match_views(matches@));
                        return matches;
                    }
                },
                None => {
                    if pos < len {
                        pos + 1
                    } else {
                        assert(all_matches(m, input@, here + 1) =~= Seq::<MatchView>::empty());
                        assert(so_far + Seq::<MatchView>::empty() =~= so_far);
                        return matches;
                    }
                },
            };
            pos = next;
        }
    }

    /// The match that starts at `start`, if there is one.
    fn match_from(&self, input: &Vec<char>, start: usize) -> (r: Option<Match>)
        requires
            start <= input@.len(),
        ensures
            match r {
                Some(found) => {
                    &&& match_at(self.machine(), input@, start as int) is Some
                    &&& found@ == match_of(
                        self.machine(),
                        start as int,
                        match_at(self.machine(), input@, start as int)->Some_0.0,
                        match_at(self.machine(), input@, start as int)->Some_0.1,
                    )
                    &&& found.within(input@.len())
                    &&& found.framed(self.machine().names.len())
                },
                None => match_at(self.machine(), input@, start as int) is None,
            },
    {
        proof {
            use_type_invariant(self);
        }
        let len = input.len();
        let simulator = NfaSimulator::new(&self.nfa, input, start);
        let r = simulator.run();
        proof {
            if r is Some {
                assert(input@.len() == len);
                lemma_match_spans(self.machine(), input@, start as int);
                lemma_machine_groups(
                    self.machine(),
                    input@,
                    start as int,
                    1,
                    1 + self.machine().names.len() as int,
                );
            }
        }
        r
    }
}

} // verus!
