//! Handles for callers from other languages: a compiled pattern, and a
//! match together with the input that it was found in.

use crate::engine::{
    Match, MatchView, ModeFlags, Regex, all_matches, compiled, found, match_views, span_of_name,
};
use crate::error::RegexErrorView;
use crate::replace::{PartView, Replacement, applied, template_parts};
use crate::simulation::{Caps, Machine};
use crate::text::{chars_of, push_chars};
use crate::transpiler::{transpile, transpiled};
use std::collections::HashMap;
use vstd::prelude::*;
use vstd::std_specs::hash::*;
use vstd::std_specs::iter::IteratorSpec;
use vstd::string::*;

verus! {

/// A compiled pattern behind a handle.
pub struct RegexHandle {
    regex: Regex,
}

/// A match behind a handle, with a copy of the input.
pub struct MatchHandle {
    match_result: Match,
    input: String,
}

/// The matches behind the handles `v`, in order.
pub open spec fn handle_views(v: Seq<MatchHandle>) -> Seq<MatchView> {
    v.map_values(|h: MatchHandle| h.found())
}

/// `top` is the largest index of a group with a span in `caps`, or 0 if
/// there is none.
pub open spec fn last_group(caps: Caps, top: u32) -> bool {
    &&& forall|k: u32| caps.contains_key(k) ==> k <= top
    &&& top == 0 || caps.contains_key(top)
}

/// The spans of `caps` as a template takes them: as many places as groups
/// have a span, the span of group `i + 1` at place `i`, and an empty span
/// where that group has none.
pub open spec fn group_pairs(caps: Caps) -> Seq<(usize, usize)> {
    Seq::new(
        caps.len(),
        |i: int|
            if i + 1 <= u32::MAX && caps.contains_key((i + 1) as u32) {
                caps[(i + 1) as u32]
            } else {
                (0usize, 0usize)
            },
    )
}

/// What the template `parts` makes of the match `found` in `input`.
pub open spec fn replaced(parts: Seq<PartView>, input: Seq<char>, found: MatchView) -> Seq<char> {
    applied(
        parts,
        parts.len(),
        input,
        (found.start as usize, found.end as usize),
        group_pairs(found.groups),
        Seq::empty(),
    )
}

/// Where the `k`-th of the matches `found` ends; the start of the input
/// for `k == 0`.
pub open spec fn end_of(found: Seq<MatchView>, k: nat) -> int {
    if k == 0 || k > found.len() {
        0
    } else {
        found[k - 1].end
    }
}

/// The input up to the end of the `k`-th of the matches `found`, with each
/// of these matches replaced by what the template makes of it.
pub open spec fn stitched(
    parts: Seq<PartView>,
    input: Seq<char>,
    found: Seq<MatchView>,
    k: nat,
) -> Seq<char>
    decreases k,
{
    if k == 0 || k > found.len() {
        Seq::empty()
    } else {
        stitched(parts, input, found, (k - 1) as nat) + input.subrange(
            end_of(found, (k - 1) as nat),
            found[k - 1].start,
        ) + replaced(parts, input, found[k - 1])
    }
}

/// `input` with the matches of `m` replaced by what the template
/// `template` makes of them: all of them, or the first `count`.
pub open spec fn substituted(
    m: Machine,
    template: Seq<char>,
    input: Seq<char>,
    count: Option<usize>,
) -> Seq<char> {
    let found = all_matches(m, input, 0);
    let k = match count {
        Some(c) if c < found.len() => c as nat,
        _ => found.len(),
    };
    stitched(template_parts(template), input, found, k) + input.subrange(
        end_of(found, k),
        input.len() as int,
    )
}

/// The spans of the groups of `m` as a template takes them.
fn pairs_of(m: &Match) -> (pairs: Vec<(usize, usize)>)
    ensures
        pairs@ == group_pairs(m.groups@),
{
    broadcast use group_hash_axioms;

    let n = m.groups.len();
    let mut pairs: Vec<(usize, usize)> = Vec::new();
    let mut i: usize = 0;
    while i < n
        invariant
            i <= n,
            n == m.groups@.len(),
            pairs@.len() == i,
            forall|j: int| 0 <= j < i ==> #[trigger] pairs@[j] == group_pairs(m.groups@)[j],
        decreases n - i,
    {
        let span = if i < 0xffff_ffff {
            let index: u32 = (i + 1) as u32;
            match m.group(index) {
                Some(span) => span,
                None => (0, 0),
            }
        } else {
            (0, 0)
        };
        pairs.push(span);
        i += 1;
    }
    assert(pairs@ =~= group_pairs(m.groups@));
    pairs
}

impl RegexHandle {
    /// The automaton of the pattern.
    pub closed spec fn machine(&self) -> Machine {
        self.regex.machine()
    }

    /// Compiles `pattern`, or gives the message of the error.
    pub fn compile(pattern: &str) -> (r: Result<RegexHandle, String>)
        ensures
            match r {
                Ok(handle) => compiled(pattern@, ModeFlags::none()) == Ok::<Machine, RegexErrorView>(
                    handle.machine(),
                ),
                Err(message) => compiled(pattern@, ModeFlags::none()) is Err && message@ == compiled(
                    pattern@,
                    ModeFlags::none(),
                )->Err_0.text(),
            },
    {
        match Regex::new(pattern) {
            Ok(regex) => Ok(RegexHandle { regex }),
            Err(e) => Err(e.to_string()),
        }
    }

    /// Whether the pattern matches somewhere in `input`.
    pub fn is_match(&self, input: &str) -> (b: bool)
        ensures
            b == found(self.machine(), input@, 0) is Some,
    {
        self.regex.is_match(input)
    }

    /// The leftmost match in `input`, with a copy of `input`.
    pub fn find(&self, input: &str) -> (r: Option<MatchHandle>)
        ensures
            match r {
                Some(handle) => found(self.machine(), input@, 0) == Some(handle.found())
                    && handle.source() == input@,
                None => found(self.machine(), input@, 0) is None,
            },
    {
        match self.regex.find(input) {
            Some(match_result) => Some(MatchHandle { match_result, input: String::from_str(input) }),
            None => None,
        }
    }

    /// The leftmost match in `input`, as [`RegexHandle::find`] gives it.
    pub fn search(&self, input: &str) -> (r: Option<MatchHandle>)
        ensures
            match r {
                Some(handle) => found(self.machine(), input@, 0) == Some(handle.found())
                    && handle.source() == input@,
                None => found(self.machine(), input@, 0) is None,
            },
    {
        self.find(input)
    }

    /// The leftmost match in `input` if it starts at the start of `input`.
    pub fn match_(&self, input: &str) -> (r: Option<MatchHandle>)
        ensures
            match r {
                Some(handle) => found(self.machine(), input@, 0) == Some(handle.found())
                    && handle.found().start == 0 && handle.source() == input@,
                None => found(self.machine(), input@, 0) is None || found(
                    self.machine(),
                    input@,
                    0,
                )->Some_0.start != 0,
            },
    {
        match self.find(input) {
            Some(handle) => if handle.start() == 0 {
                Some(handle)
            } else {
                None
            },
            None => None,
        }
    }

    /// The matches in `input` from left to right, as [`Regex::find_all`]
    /// gives them, each with a copy of `input`.
    pub fn find_all(&self, input: &str) -> (handles: Vec<MatchHandle>)
        ensures
            handle_views(handles@) == all_matches(self.machine(), input@, 0),
            forall|i: int| 0 <= i < handles@.len() ==> (#[trigger] handles@[i]).source() == input@,
    {
        let matches = self.regex.find_all(input);
        let ghost all = matches@;
        let mut handles: Vec<MatchHandle> = Vec::new();
        for match_result in it: matches
            invariant
                it.seq() == all,
                forall|i: int| 0 <= i < all.len() ==> (#[trigger] all[i]).within(input@.len()),
                handles@.len() == it.index(),
                forall|i: int|
                    0 <= i < handles@.len() ==> (#[trigger] handles@[i]).found() == all[i]@
                        && handles@[i].source() == input@,
        {
            handles.push(MatchHandle { match_result, input: String::from_str(input) });
        }
        assert(handle_views(handles@) =~= match_views(all));
        handles
    }

    /// The pattern `pattern` in conventional notation, or the message of
    /// the error that parsing it gives.
    pub fn transpile(pattern: &str) -> (r: Result<String, String>)
        ensures
            match r {
                Ok(text) => transpiled(pattern@) == Ok::<Seq<char>, RegexErrorView>(text@),
                Err(message) => transpiled(pattern@) is Err && message@ == transpiled(
                    pattern@,
                )->Err_0.text(),
            },
    {
        match transpile(pattern) {
            Ok(text) => Ok(text),
            Err(e) => Err(e.to_string()),
        }
    }

    /// `input` with its matches replaced by what the template `template`
    /// makes of them: all the matches, or the first `count` of them. Groups
    /// reach the template as [`group_pairs`] hands them on, and no name
    /// does. Every text is a template, so there is always a result.
    pub fn sub(&self, template: &str, input: &str, count: Option<usize>) -> (r: Result<
        String,
        String,
    >)
        ensures
            r is Ok,
            r->Ok_0@ == substituted(self.machine(), template@, input@, count),
    {
        let replacement = match Replacement::parse(template) {
            Ok(replacement) => replacement,
            Err(e) => {
                return Err(e.to_string());
            },
        };
        let chars = chars_of(input);
        let matches = self.regex.find_all(input);
        let limit = match count {
            Some(c) => c,
            None => usize::MAX,
        };
        let ghost parts = template_parts(template@);
        let ghost all = match_views(matches@);
        let mut result = String::new();
        let mut last_end: usize = 0;
        let mut i: usize = 0;
        assert(result@ =~= stitched(parts, input@, all, 0));
        while i < matches.len() && i < limit
            invariant
                i <= matches@.len(),
                i <= limit,
                chars@ == input@,
                replacement@ == parts,
                all == match_views(matches@),
                forall|k: int|
                    0 <= k < matches@.len() ==> (#[trigger] matches@[k]).within(input@.len()),
                forall|k: int, j: int|
                    0 <= k < j < matches@.len() ==> (#[trigger] matches@[k]).end <= (
                    #[trigger] matches@[j]).start,
                last_end == end_of(all, i as nat),
                last_end <= input@.len(),
                result@ == stitched(parts, input@, all, i as nat),
            decreases matches@.len() - i,
        {
            let found = &matches[i];
            proof {
                assert(all[i as int] == matches@[i as int]@);
                if i > 0 {
                    assert(all[i - 1] == matches@[i - 1]@);
                    assert(matches@[i - 1].end <= matches@[i as int].start);
                }
            }
            push_chars(&mut result, &chars, last_end, found.start);
            let pairs = pairs_of(found);
            let piece = replacement.apply(input, found.start, found.end, pairs.as_slice());
            result.append(piece.as_str());
            last_end = found.end;
            i += 1;
        }
        push_chars(&mut result, &chars, last_end, chars.len());
        Ok(result)
    }
}

impl MatchHandle {
    #[verifier::type_invariant]
    spec fn in_range(self) -> bool {
        self.match_result.within(self.input@.len())
    }

    /// The match.
    pub closed spec fn found(&self) -> MatchView {
        self.match_result@
    }

    /// The input in which the match was found.
    pub closed spec fn source(&self) -> Seq<char> {
        self.input@
    }

    /// The position at which the match starts.
    pub fn start(&self) -> (pos: usize)
        ensures
            pos == self.found().start,
    {
        self.match_result.start
    }

    /// The position just behind the match.
    pub fn end(&self) -> (pos: usize)
        ensures
            pos == self.found().end,
    {
        self.match_result.end
    }

    /// The text of the match.
    pub fn text(&self) -> (text: String)
        ensures
            0 <= self.found().start <= self.found().end <= self.source().len(),
            text@ == self.source().subrange(self.found().start, self.found().end),
    {
        proof {
            use_type_invariant(self);
        }
        String::from_str(self.match_result.as_str(self.input.as_str()))
    }

    /// The text that group `index` captured, if the group captured.
    pub fn group(&self, index: u32) -> (text: Option<String>)
        ensures
            match text {
                Some(t) => self.found().groups.contains_key(index) && t@ == self.source().subrange(
                    self.found().groups[index].0 as int,
                    self.found().groups[index].1 as int,
                ),
                None => !self.found().groups.contains_key(index),
            },
    {
        proof {
            use_type_invariant(self);
        }
        match self.match_result.group_str(self.input.as_str(), index) {
            Some(t) => Some(String::from_str(t)),
            None => None,
        }
    }

    /// The text that the first group called `name` captured.
    pub fn named_group(&self, name: &str) -> (text: Option<String>)
        ensures
            match text {
                Some(t) => span_of_name(self.found().named, name@, 0) is Some
                    && t@ == self.source().subrange(
                    span_of_name(self.found().named, name@, 0)->Some_0.0 as int,
                    span_of_name(self.found().named, name@, 0)->Some_0.1 as int,
                ),
                None => span_of_name(self.found().named, name@, 0) is None,
            },
    {
        proof {
            use_type_invariant(self);
        }
        match self.match_result.named_group_str(self.input.as_str(), name) {
            Some(t) => Some(String::from_str(t)),
            None => None,
        }
    }

    /// The texts of the groups from group 1 to the last group that
    /// captured; `None` stands for a group that did not capture.
    pub fn groups(&self) -> (texts: Vec<Option<String>>)
        ensures
            last_group(self.found().groups, texts@.len() as u32),
            texts@.len() <= u32::MAX,
            forall|i: int|
                0 <= i < texts@.len() ==> match #[trigger] texts@[i] {
                    Some(t) => self.found().groups.contains_key((i + 1) as u32)
                        && t@ == self.source().subrange(
                        self.found().groups[(i + 1) as u32].0 as int,
                        self.found().groups[(i + 1) as u32].1 as int,
                    ),
                    None => !self.found().groups.contains_key((i + 1) as u32),
                },
    {
        broadcast use group_hash_axioms;

        proof {
            use_type_invariant(self);
        }
        let top = largest_key(&self.match_result.groups);
        let mut texts: Vec<Option<String>> = Vec::new();
        let mut index: u32 = 0;
        while index < top
            invariant
                index <= top,
                texts@.len() == index,
                self.match_result.within(self.input@.len()),
                forall|i: int|
                    0 <= i < texts@.len() ==> match #[trigger] texts@[i] {
                        Some(t) => self.found().groups.contains_key((i + 1) as u32)
                            && t@ == self.source().subrange(
                            self.found().groups[(i + 1) as u32].0 as int,
                            self.found().groups[(i + 1) as u32].1 as int,
                        ),
                        None => !self.found().groups.contains_key((i + 1) as u32),
                    },
            decreases top - index,
        {
            index += 1;
            let text = match self.match_result.group_str(self.input.as_str(), index) {
                Some(t) => Some(String::from_str(t)),
                None => None,
            };
            texts.push(text);
        }
        texts
    }
}

/// The largest key of `spans`, or 0 if there is none.
fn largest_key(spans: &HashMap<u32, (usize, usize)>) -> (top: u32)
    ensures
        last_group(spans@, top),
{
    broadcast use group_hash_axioms;

    let mut top: u32 = 0;
    let ghost keys = spans.keys().remaining();
    for key in it: spans.keys()
        invariant
            it.seq() == keys,
            keys.unref().to_set() == spans@.dom(),
            forall|j: int| 0 <= j < it.index() ==> *(#[trigger] keys[j]) <= top,
            top == 0 || exists|j: int| 0 <= j < it.index() && *(#[trigger] keys[j]) == top,
    {
        if *key > top {
            top = *key;
        }
    }
    proof {
        let all = keys.unref();
        assert forall|k: u32| spans@.contains_key(k) implies k <= top by {
            assert(all.to_set().contains(k));
            let j = choose|j: int| 0 <= j < all.len() && all[j] == k;
            assert(*keys[j] == k);
        }
        if top != 0 {
            let j = choose|j: int| 0 <= j < keys.len() && *(#[trigger] keys[j]) == top;
            assert(all[j] == top);
            assert(all.to_set().contains(top));
        }
    }
    top
}

} // verus!
