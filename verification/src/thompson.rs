//! What the automaton of a pattern is: the construction of the state table
//! from the syntax tree, as a function.
//!
//! A table is a sequence of states, each an ordered list of edges; a state is
//! addressed by its place in the table. Every expression becomes a piece of
//! the table with one entry and one exit. The order of the edges of a state
//! is the order in which the simulation prefers them.

use crate::ast::{ClassItem, ExprView, Quantifier};
use crate::groups::{Names, declared, index_of_name};
use crate::text::{all_digits, decimal_value, is_upper};
use vstd::prelude::*;

verus! {

/// What an edge asks of the input, or does to the captures.
pub enum Label {
    /// Consumes the given character.
    Char(char),
    /// Consumes any character (but a line feed, unless the mode says so).
    Any,
    /// Consumes nothing.
    Epsilon,
    /// Consumes a character of the class.
    Class { negated: bool, items: Seq<ClassItem> },
    /// Consumes nothing and opens the group.
    GroupStart(u32),
    /// Consumes nothing and closes the group.
    GroupEnd(u32),
    /// Consumes a copy of what the group captured.
    Backref(u32),
    /// As `Backref`, for the numbered group counted back from the last.
    BackrefRelative(i32),
    /// Passes at the start of the input.
    StartAnchor,
    /// Passes at the end of the input.
    EndAnchor,
    /// Passes between a word character and something else.
    WordBoundary,
    /// Passes where `WordBoundary` does not.
    NonWordBoundary,
}

/// An edge: its label and the state it leads to.
pub type Edge = (Label, int);

/// A state table without the accepting marks.
pub type Graph = Seq<Seq<Edge>>;

/// A table under construction, and the index that the next group gets.
pub struct Build {
    pub graph: Graph,
    pub next_group: int,
}

/// A piece of a table: the table that holds it, its entry and its exit.
pub struct Piece {
    pub build: Build,
    pub start: int,
    pub accept: int,
}

/// `g` with one more state, which has no edges. The new state is `g.len()`.
pub open spec fn with_state(g: Graph) -> Graph {
    g.push(Seq::empty())
}

/// `g` with the edge `label` from `from` to `to` added behind the edges that
/// `from` has.
pub open spec fn with_edge(g: Graph, from: int, label: Label, to: int) -> Graph {
    if 0 <= from < g.len() {
        g.update(from, g[from].push((label, to)))
    } else {
        g
    }
}

/// Every edge of `g` leads to a state of `g`.
pub open spec fn graph_closed(g: Graph) -> bool {
    forall|i: int, j: int|
        0 <= i < g.len() && 0 <= j < g[i].len() ==> 0 <= (#[trigger] g[i][j]).1 < g.len()
}

/// Two new states with one edge from the first to the second.
pub open spec fn pair(b: Build, label: Label) -> Piece {
    let start = b.graph.len() as int;
    let accept = start + 1;
    Piece {
        build: Build {
            graph: with_edge(with_state(with_state(b.graph)), start, label, accept),
            next_group: b.next_group,
        },
        start,
        accept,
    }
}

/// The group that a backreference by the name `name` refers to: the group
/// of that name if there is one, else the group of that number if the name
/// is a number, else group 0, which never captures.
pub open spec fn named_target(names: Names, name: Seq<char>) -> u32 {
    match index_of_name(names, name) {
        Some(k) => k,
        None => if name.len() > 0 && all_digits(name) && decimal_value(name) <= u32::MAX {
            decimal_value(name) as u32
        } else {
            0
        },
    }
}

/// The label of the edge for the shorthand with the letter `c`: the class of
/// the small letter, negated for a capital one.
pub open spec fn shorthand_label(c: char) -> Label {
    Label::Class {
        negated: is_upper(c),
        items: seq![
            ClassItem::Shorthand(
                if is_upper(c) {
                    ((c as u8 + 32) as u8) as char
                } else {
                    c
                },
            ),
        ],
    }
}

/// `p` with the edges that make its entry and exit those of a loop:
/// two new states `s` and `a` around the piece.
///
/// - `*`: `s -> entry`, `s -> a`, `exit -> entry`, `exit -> a`;
/// - `*?`: `s -> a`, `s -> entry`, `exit -> a`, `exit -> entry`;
/// - `+`: `s -> entry`, `exit -> entry`, `exit -> a`;
/// - `+?`: `s -> entry`, `exit -> a`, `exit -> entry`;
/// - `?`: `s -> entry`, `s -> a`, `exit -> a`.
pub open spec fn looped(p: Piece, q: Quantifier) -> Piece {
    let s = p.build.graph.len() as int;
    let a = s + 1;
    let g = with_state(with_state(p.build.graph));
    let e = Label::Epsilon;
    let wired = match q {
        Quantifier::ZeroOrMore => with_edge(
            with_edge(with_edge(with_edge(g, s, e, p.start), s, e, a), p.accept, e, p.start),
            p.accept,
            e,
            a,
        ),
        Quantifier::ZeroOrMoreLazy => with_edge(
            with_edge(with_edge(with_edge(g, s, e, a), s, e, p.start), p.accept, e, a),
            p.accept,
            e,
            p.start,
        ),
        Quantifier::OneOrMore => with_edge(
            with_edge(with_edge(g, s, e, p.start), p.accept, e, p.start),
            p.accept,
            e,
            a,
        ),
        Quantifier::OneOrMoreLazy => with_edge(
            with_edge(with_edge(g, s, e, p.start), p.accept, e, a),
            p.accept,
            e,
            p.start,
        ),
        _ => with_edge(with_edge(with_edge(g, s, e, p.start), s, e, a), p.accept, e, a),
    };
    Piece { build: Build { graph: wired, next_group: p.build.next_group }, start: s, accept: a }
}

/// `p` followed by `c`, with an edge from the exit of the one to the entry
/// of the other.
pub open spec fn joined(p: Piece, c: Piece) -> Piece {
    Piece {
        build: Build {
            graph: with_edge(c.build.graph, p.accept, Label::Epsilon, c.start),
            next_group: c.build.next_group,
        },
        start: p.start,
        accept: c.accept,
    }
}

/// The piece for `e`, added to the table of `b`. `names` are the groups of
/// the whole pattern, by which named backreferences are resolved.
pub open spec fn thompson(e: ExprView, names: Names, b: Build) -> Piece
    decreases e, 0nat, 0nat,
{
    match e {
        ExprView::Empty => pair(b, Label::Epsilon),
        ExprView::Literal(c) => pair(b, Label::Char(c)),
        ExprView::Any => pair(b, Label::Any),
        ExprView::Sequence(es) => if es.len() == 0 {
            pair(b, Label::Epsilon)
        } else {
            chain(es, names, b, es.len())
        },
        ExprView::Alternation(es) => if es.len() == 0 {
            pair(b, Label::Epsilon)
        } else if es.len() == 1 {
            thompson(es[0], names, b)
        } else {
            let s = b.graph.len() as int;
            let around = Build {
                graph: with_state(with_state(b.graph)),
                next_group: b.next_group,
            };
            Piece { build: branches(es, names, around, s, s + 1, es.len()), start: s, accept: s + 1 }
        },
        ExprView::CharacterClass(cc) => pair(
            b,
            Label::Class { negated: cc.negated, items: cc.items },
        ),
        ExprView::Quantified { expr, quantifier } => match quantifier {
            Quantifier::Exactly(n) => exact(*expr, names, b, n as nat),
            Quantifier::AtLeast(n) => at_least(*expr, names, b, n as nat, false),
            Quantifier::AtLeastLazy(n) => at_least(*expr, names, b, n as nat, true),
            Quantifier::Between(n, m) => between(*expr, names, b, n as nat, m as nat, false),
            Quantifier::BetweenLazy(n, m) => between(*expr, names, b, n as nat, m as nat, true),
            q => looped(thompson(*expr, names, b), q),
        },
        ExprView::Group(inner) => grouped(*inner, names, b),
        ExprView::NamedGroup { name, pattern } => grouped(*pattern, names, b),
        ExprView::NonCapturingGroup(inner) => thompson(*inner, names, b),
        ExprView::AtomicGroup(inner) => thompson(*inner, names, b),
        ExprView::StartAnchor => pair(b, Label::StartAnchor),
        ExprView::EndAnchor => pair(b, Label::EndAnchor),
        ExprView::Backreference(n) => pair(b, Label::Backref(n)),
        ExprView::RelativeBackreference(n) => pair(b, Label::BackrefRelative(n)),
        ExprView::NamedBackreference(name) => pair(b, Label::Backref(named_target(names, name))),
        ExprView::Shorthand(c) => pair(b, shorthand_label(c)),
        ExprView::WordBoundary => pair(b, Label::WordBoundary),
        ExprView::NonWordBoundary => pair(b, Label::NonWordBoundary),
        ExprView::Lookahead(_) => pair(b, Label::Epsilon),
        ExprView::NegativeLookahead(_) => pair(b, Label::Epsilon),
        ExprView::Lookbehind(_) => pair(b, Label::Epsilon),
        ExprView::NegativeLookbehind(_) => pair(b, Label::Epsilon),
        ExprView::ConditionalGroup(_) => pair(b, Label::Epsilon),
    }
}

/// The piece for a capturing group around `inner`: a new entry, the piece
/// of `inner`, a new exit, an edge that opens the group and one that closes
/// it. The group gets the next index.
pub open spec fn grouped(inner: ExprView, names: Names, b: Build) -> Piece
    decreases inner, 1nat, 0nat,
{
    let id = b.next_group as u32;
    let start = b.graph.len() as int;
    let p = thompson(
        inner,
        names,
        Build { graph: with_state(b.graph), next_group: b.next_group + 1 },
    );
    let accept = p.build.graph.len() as int;
    Piece {
        build: Build {
            graph: with_edge(
                with_edge(with_state(p.build.graph), start, Label::GroupStart(id), p.start),
                p.accept,
                Label::GroupEnd(id),
                accept,
            ),
            next_group: p.build.next_group,
        },
        start,
        accept,
    }
}

/// The first `k` expressions of `es`, one after the other.
pub open spec fn chain(es: Seq<ExprView>, names: Names, b: Build, k: nat) -> Piece
    decreases es, 0nat, k,
{
    if k == 0 || k > es.len() {
        pair(b, Label::Epsilon)
    } else if k == 1 {
        thompson(es[0], names, b)
    } else {
        let p = chain(es, names, b, (k - 1) as nat);
        joined(p, thompson(es[k - 1], names, p.build))
    }
}

/// The table of `b` with the first `k` expressions of `es` as branches
/// between the states `start` and `accept`.
pub open spec fn branches(
    es: Seq<ExprView>,
    names: Names,
    b: Build,
    start: int,
    accept: int,
    k: nat,
) -> Build
    decreases es, 0nat, k,
{
    if k == 0 || k > es.len() {
        b
    } else {
        let prev = branches(es, names, b, start, accept, (k - 1) as nat);
        let c = thompson(es[k - 1], names, prev);
        Build {
            graph: with_edge(
                with_edge(c.build.graph, start, Label::Epsilon, c.start),
                c.accept,
                Label::Epsilon,
                accept,
            ),
            next_group: c.build.next_group,
        }
    }
}

/// `k` copies of `e`, one after the other, for `k` of at least 1. The groups
/// of every copy have the indices of those of the first.
pub open spec fn repeat(e: ExprView, names: Names, b: Build, k: nat) -> Piece
    decreases e, 1nat, k,
{
    if k <= 1 {
        thompson(e, names, b)
    } else {
        let p = repeat(e, names, b, (k - 1) as nat);
        joined(p, thompson(e, names, Build { graph: p.build.graph, next_group: b.next_group }))
    }
}

/// The piece for `e{n}`: for no copy the empty piece, the groups of `e`
/// keeping their indices; else `n` copies in a row.
pub open spec fn exact(e: ExprView, names: Names, b: Build, n: nat) -> Piece
    decreases e, 2nat, 0nat,
{
    if n == 0 {
        pair(
            Build { graph: b.graph, next_group: b.next_group + declared(e).len() },
            Label::Epsilon,
        )
    } else {
        repeat(e, names, b, n)
    }
}

/// The piece for `e{n,}`: `e{n}` followed by `e*`, or by `e*?` if lazy.
pub open spec fn at_least(e: ExprView, names: Names, b: Build, n: nat, lazy: bool) -> Piece
    decreases e, 3nat, 0nat,
{
    let head = exact(e, names, b, n);
    let tail = looped(
        thompson(e, names, Build { graph: head.build.graph, next_group: b.next_group }),
        if lazy {
            Quantifier::ZeroOrMoreLazy
        } else {
            Quantifier::ZeroOrMore
        },
    );
    joined(head, tail)
}

/// The table and the last exit after `k` optional copies of `e` have been
/// hung behind the state `prev`. Before each copy stand two edges: into the
/// copy and to `exit`, in this order if greedy and in the other if lazy.
pub open spec fn optional_copies(
    e: ExprView,
    names: Names,
    graph: Graph,
    first_group: int,
    lazy: bool,
    exit: int,
    prev: int,
    k: nat,
) -> (Graph, int)
    decreases e, 1nat, k,
{
    if k == 0 {
        (graph, prev)
    } else {
        let (g, last) = optional_copies(
            e,
            names,
            graph,
            first_group,
            lazy,
            exit,
            prev,
            (k - 1) as nat,
        );
        let c = thompson(e, names, Build { graph: g, next_group: first_group });
        let wired = if lazy {
            with_edge(
                with_edge(c.build.graph, last, Label::Epsilon, exit),
                last,
                Label::Epsilon,
                c.start,
            )
        } else {
            with_edge(
                with_edge(c.build.graph, last, Label::Epsilon, c.start),
                last,
                Label::Epsilon,
                exit,
            )
        };
        (wired, c.accept)
    }
}

/// The piece for `e{n,m}`: `e{n}`, then `m - n` optional copies. Where `m`
/// is not above `n` it is the piece for `e{n}`.
pub open spec fn between(e: ExprView, names: Names, b: Build, n: nat, m: nat, lazy: bool) -> Piece
    decreases e, 3nat, 0nat,
{
    if m <= n {
        exact(e, names, b, n)
    } else {
        let head = exact(e, names, b, n);
        let s = head.build.graph.len() as int;
        let a = s + 1;
        let g = with_edge(
            with_state(with_state(head.build.graph)),
            s,
            Label::Epsilon,
            head.start,
        );
        let (copies, last) = optional_copies(
            e,
            names,
            g,
            b.next_group,
            lazy,
            a,
            head.accept,
            (m - n) as nat,
        );
        Piece {
            build: Build {
                graph: with_edge(copies, last, Label::Epsilon, a),
                next_group: head.build.next_group,
            },
            start: s,
            accept: a,
        }
    }
}

/// The empty table in which groups are counted from 1.
pub open spec fn empty_build() -> Build {
    Build { graph: Seq::empty(), next_group: 1 }
}

/// The automaton of the expression `e`: its piece in an empty table, with
/// the groups that `e` declares.
pub open spec fn automaton(e: ExprView) -> Piece {
    thompson(e, declared(e), empty_build())
}

} // verus!
