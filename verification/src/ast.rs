//! The syntax tree of a pattern and its rendering in conventional notation.

use crate::text::{
    char_is_plain, decimal, is_plain, push_char, push_decimal, push_signed, signed_decimal,
};
use vstd::prelude::*;
use vstd::string::*;

verus! {

/// One member of a character class.
#[derive(Debug, Clone, Copy, PartialEq)]
pub enum ClassItem {
    /// A single character.
    Char(char),
    /// All characters from the first to the second, both included.
    Range(char, char),
    /// A shorthand such as `\d`, by its letter.
    Shorthand(char),
}

/// How often an expression may repeat.
#[derive(Debug, Clone, Copy, PartialEq)]
pub enum Quantifier {
    /// `*`
    ZeroOrMore,
    /// `*?`
    ZeroOrMoreLazy,
    /// `+`
    OneOrMore,
    /// `+?`
    OneOrMoreLazy,
    /// `?`
    Optional,
    /// `{n}`
    Exactly(u32),
    /// `{n,}`
    AtLeast(u32),
    /// `{n,}?`
    AtLeastLazy(u32),
    /// `{n,m}`
    Between(u32, u32),
    /// `{n,m}?`
    BetweenLazy(u32, u32),
}

/// A character class `[...]` or `[^...]`.
#[derive(Debug, Clone, PartialEq)]
pub struct CharacterClass {
    /// Whether the class matches what its items do not.
    pub negated: bool,
    /// The items, in the order in which they were written.
    pub items: Vec<ClassItem>,
}

pub struct CharacterClassView {
    pub negated: bool,
    pub items: Seq<ClassItem>,
}

impl View for CharacterClass {
    type V = CharacterClassView;

    open spec fn view(&self) -> CharacterClassView {
        CharacterClassView { negated: self.negated, items: self.items@ }
    }
}

/// A node of the syntax tree.
#[derive(Debug, PartialEq)]
pub enum Expr {
    /// Matches the empty string.
    Empty,
    /// A literal character.
    Literal(char),
    /// `.`
    Any,
    /// One expression after the other.
    Sequence(Vec<Expr>),
    /// One expression or another.
    Alternation(Vec<Expr>),
    /// `[...]`
    CharacterClass(CharacterClass),
    /// An expression with a quantifier behind it.
    Quantified {
        /// The expression that repeats.
        expr: Box<Expr>,
        /// How often.
        quantifier: Quantifier,
    },
    /// `(...)`
    Group(Box<Expr>),
    /// `(?:...)`
    NonCapturingGroup(Box<Expr>),
    /// `(name:...)`
    NamedGroup {
        /// The name of the group.
        name: String,
        /// What the group holds.
        pattern: Box<Expr>,
    },
    /// `^`
    StartAnchor,
    /// `$`
    EndAnchor,
    /// `\1`, `\2`, ...
    Backreference(u32),
    /// `\g{-1}`, `\g{-2}`, ...
    RelativeBackreference(i32),
    /// `\g{name}`
    NamedBackreference(String),
    /// `\w`, `\d`, `\s` and their complements, by letter.
    Shorthand(char),
    /// `\b`
    WordBoundary,
    /// `\B`
    NonWordBoundary,
    /// `(@>:...)`
    Lookahead(Box<Expr>),
    /// `(@>~:...)`
    NegativeLookahead(Box<Expr>),
    /// `(@<:...)`
    Lookbehind(Box<Expr>),
    /// `(@<~:...)`
    NegativeLookbehind(Box<Expr>),
    /// `(@*:...)`
    AtomicGroup(Box<Expr>),
    /// `(@%:...)`
    ConditionalGroup(Box<Expr>),
}

pub enum ExprView {
    Empty,
    Literal(char),
    Any,
    Sequence(Seq<ExprView>),
    Alternation(Seq<ExprView>),
    CharacterClass(CharacterClassView),
    Quantified { expr: Box<ExprView>, quantifier: Quantifier },
    Group(Box<ExprView>),
    NonCapturingGroup(Box<ExprView>),
    NamedGroup { name: Seq<char>, pattern: Box<ExprView> },
    StartAnchor,
    EndAnchor,
    Backreference(u32),
    RelativeBackreference(i32),
    NamedBackreference(Seq<char>),
    Shorthand(char),
    WordBoundary,
    NonWordBoundary,
    Lookahead(Box<ExprView>),
    NegativeLookahead(Box<ExprView>),
    Lookbehind(Box<ExprView>),
    NegativeLookbehind(Box<ExprView>),
    AtomicGroup(Box<ExprView>),
    ConditionalGroup(Box<ExprView>),
}

impl View for Expr {
    type V = ExprView;

    open spec fn view(&self) -> ExprView
        decreases self,
    {
        match self {
            Expr::Empty => ExprView::Empty,
            Expr::Literal(c) => ExprView::Literal(*c),
            Expr::Any => ExprView::Any,
            Expr::Sequence(v) => ExprView::Sequence(views_upto(*v, v@.len())),
            Expr::Alternation(v) => ExprView::Alternation(views_upto(*v, v@.len())),
            Expr::CharacterClass(cc) => ExprView::CharacterClass(cc@),
            Expr::Quantified { expr, quantifier } => ExprView::Quantified {
                expr: Box::new((**expr).view()),
                quantifier: *quantifier,
            },
            Expr::Group(e) => ExprView::Group(Box::new((**e).view())),
            Expr::NonCapturingGroup(e) => ExprView::NonCapturingGroup(Box::new((**e).view())),
            Expr::NamedGroup { name, pattern } => ExprView::NamedGroup {
                name: name@,
                pattern: Box::new((**pattern).view()),
            },
            Expr::StartAnchor => ExprView::StartAnchor,
            Expr::EndAnchor => ExprView::EndAnchor,
            Expr::Backreference(n) => ExprView::Backreference(*n),
            Expr::RelativeBackreference(n) => ExprView::RelativeBackreference(*n),
            Expr::NamedBackreference(name) => ExprView::NamedBackreference(name@),
            Expr::Shorthand(c) => ExprView::Shorthand(*c),
            Expr::WordBoundary => ExprView::WordBoundary,
            Expr::NonWordBoundary => ExprView::NonWordBoundary,
            Expr::Lookahead(e) => ExprView::Lookahead(Box::new((**e).view())),
            Expr::NegativeLookahead(e) => ExprView::NegativeLookahead(Box::new((**e).view())),
            Expr::Lookbehind(e) => ExprView::Lookbehind(Box::new((**e).view())),
            Expr::NegativeLookbehind(e) => ExprView::NegativeLookbehind(Box::new((**e).view())),
            Expr::AtomicGroup(e) => ExprView::AtomicGroup(Box::new((**e).view())),
            Expr::ConditionalGroup(e) => ExprView::ConditionalGroup(Box::new((**e).view())),
        }
    }
}

/// The views of the first `n` expressions of `v`.
pub open spec fn views_upto(v: Vec<Expr>, n: nat) -> Seq<ExprView>
    decreases v, n,
{
    if n == 0 || n > v@.len() {
        Seq::empty()
    } else {
        views_upto(v, (n - 1) as nat).push(v@[n - 1].view())
    }
}

/// The views of the expressions of `v`, in order.
pub open spec fn expr_views(v: Vec<Expr>) -> Seq<ExprView> {
    views_upto(v, v@.len())
}

pub proof fn lemma_views_upto(v: Vec<Expr>, n: nat)
    requires
        n <= v@.len(),
    ensures
        views_upto(v, n).len() == n,
        forall|j: int| 0 <= j < n ==> views_upto(v, n)[j] == (#[trigger] v@[j])@,
    decreases n,
{
    if n > 0 {
        lemma_views_upto(v, (n - 1) as nat);
        assert(views_upto(v, n) == views_upto(v, (n - 1) as nat).push(v@[n - 1].view()));
    } else {
        assert(views_upto(v, 0) == Seq::<ExprView>::empty());
    }
}

/// The view of a vector of expressions holds the views of its elements.
pub proof fn lemma_expr_views(v: Vec<Expr>)
    ensures
        expr_views(v).len() == v@.len(),
        forall|j: int| 0 <= j < v@.len() ==> expr_views(v)[j] == (#[trigger] v@[j])@,
{
    lemma_views_upto(v, v@.len());
}

/// Pushing an expression onto a vector pushes its view onto the vector's view.
pub proof fn lemma_expr_views_push(before: Vec<Expr>, after: Vec<Expr>, e: Expr)
    requires
        after@ == before@.push(e),
    ensures
        expr_views(after) == expr_views(before).push(e@),
{
    lemma_expr_views(before);
    lemma_expr_views(after);
    let left = expr_views(after);
    let right = expr_views(before).push(e@);
    assert forall|j: int| 0 <= j < left.len() implies left[j] == right[j] by {
        assert(left[j] == after@[j]@);
        if j < before@.len() {
            assert(after@[j] == before@[j]);
            assert(right[j] == before@[j]@);
        }
    }
    assert(left =~= right);
}

/// The notation of a quantifier.
pub open spec fn quantifier_text(q: Quantifier) -> Seq<char> {
    match q {
        Quantifier::ZeroOrMore => "*"@,
        Quantifier::ZeroOrMoreLazy => "*?"@,
        Quantifier::OneOrMore => "+"@,
        Quantifier::OneOrMoreLazy => "+?"@,
        Quantifier::Optional => "?"@,
        Quantifier::Exactly(n) => seq!['{'] + decimal(n as nat) + seq!['}'],
        Quantifier::AtLeast(n) => seq!['{'] + decimal(n as nat) + seq![',', '}'],
        Quantifier::AtLeastLazy(n) => seq!['{'] + decimal(n as nat) + seq![',', '}', '?'],
        Quantifier::Between(n, m) => seq!['{'] + decimal(n as nat) + seq![','] + decimal(
            m as nat,
        ) + seq!['}'],
        Quantifier::BetweenLazy(n, m) => seq!['{'] + decimal(n as nat) + seq![','] + decimal(
            m as nat,
        ) + seq!['}', '?'],
    }
}

/// The notation of one class item.
pub open spec fn class_item_text(item: ClassItem) -> Seq<char> {
    match item {
        ClassItem::Char(c) => seq![c],
        ClassItem::Range(lo, hi) => seq![lo, '-', hi],
        ClassItem::Shorthand(c) => seq!['\\', c],
    }
}

/// The notations of the first `n` items of a class, one after the other.
pub open spec fn class_items_text(items: Seq<ClassItem>, n: nat) -> Seq<char>
    decreases n,
{
    if n == 0 || n > items.len() {
        Seq::empty()
    } else {
        class_items_text(items, (n - 1) as nat) + class_item_text(items[n - 1])
    }
}

/// The notation of a character class.
pub open spec fn class_text(cc: CharacterClassView) -> Seq<char> {
    seq!['['] + (if cc.negated {
        seq!['^']
    } else {
        Seq::empty()
    }) + class_items_text(cc.items, cc.items.len()) + seq![']']
}

/// The conventional notation of `e`. Named groups read `(?<name>...)`, and
/// a literal character that means something in a pattern stands behind a
/// backslash.
pub open spec fn regex_text(e: ExprView) -> Seq<char>
    decreases e, 0nat,
{
    match e {
        ExprView::Empty => Seq::empty(),
        ExprView::Literal(c) => if is_plain(c) {
            seq![c]
        } else {
            seq!['\\', c]
        },
        ExprView::Any => seq!['.'],
        ExprView::Sequence(es) => sequence_text(es, es.len()),
        ExprView::Alternation(es) => alternation_text(es, es.len()),
        ExprView::CharacterClass(cc) => class_text(cc),
        ExprView::Quantified { expr, quantifier } => (if *expr is Alternation {
            "(?:"@ + regex_text(*expr) + seq![')']
        } else {
            regex_text(*expr)
        }) + quantifier_text(quantifier),
        ExprView::Group(inner) => seq!['('] + regex_text(*inner) + seq![')'],
        ExprView::NonCapturingGroup(inner) => "(?:"@ + regex_text(*inner) + seq![')'],
        ExprView::NamedGroup { name, pattern } => "(?<"@ + name + seq!['>'] + regex_text(*pattern)
            + seq![')'],
        ExprView::StartAnchor => seq!['^'],
        ExprView::EndAnchor => seq!['$'],
        ExprView::Backreference(n) => seq!['\\'] + decimal(n as nat),
        ExprView::RelativeBackreference(n) => "\\g{"@ + signed_decimal(n as int) + seq!['}'],
        ExprView::NamedBackreference(name) => "\\g{"@ + name + seq!['}'],
        ExprView::Shorthand(c) => seq!['\\', c],
        ExprView::WordBoundary => "\\b"@,
        ExprView::NonWordBoundary => "\\B"@,
        ExprView::Lookahead(inner) => "(@>:"@ + regex_text(*inner) + seq![')'],
        ExprView::NegativeLookahead(inner) => "(@>~:"@ + regex_text(*inner) + seq![')'],
        ExprView::Lookbehind(inner) => "(@<:"@ + regex_text(*inner) + seq![')'],
        ExprView::NegativeLookbehind(inner) => "(@<~:"@ + regex_text(*inner) + seq![')'],
        ExprView::AtomicGroup(inner) => "(@*:"@ + regex_text(*inner) + seq![')'],
        ExprView::ConditionalGroup(inner) => "(@%:"@ + regex_text(*inner) + seq![')'],
    }
}

/// The notations of the first `n` expressions of `es`, one after the other.
pub open spec fn sequence_text(es: Seq<ExprView>, n: nat) -> Seq<char>
    decreases es, n,
{
    if n == 0 || n > es.len() {
        Seq::empty()
    } else {
        sequence_text(es, (n - 1) as nat) + regex_text(es[n - 1])
    }
}

/// The notations of the first `n` expressions of `es`, with `|` between them.
pub open spec fn alternation_text(es: Seq<ExprView>, n: nat) -> Seq<char>
    decreases es, n,
{
    if n == 0 || n > es.len() {
        Seq::empty()
    } else if n == 1 {
        regex_text(es[0])
    } else {
        alternation_text(es, (n - 1) as nat) + seq!['|'] + regex_text(es[n - 1])
    }
}

impl Quantifier {
    /// Appends the notation of the quantifier to `out`.
    pub fn write_regex(&self, out: &mut String)
        ensures
            final(out)@ == old(out)@ + quantifier_text(*self),
    {
        match self {
            Quantifier::ZeroOrMore => out.append("*"),
            Quantifier::ZeroOrMoreLazy => out.append("*?"),
            Quantifier::OneOrMore => out.append("+"),
            Quantifier::OneOrMoreLazy => out.append("+?"),
            Quantifier::Optional => out.append("?"),
            Quantifier::Exactly(n) => {
                push_char(out, '{');
                push_decimal(out, *n as u64);
                push_char(out, '}');
                assert(out@ =~= old(out)@ + quantifier_text(*self));
            },
            Quantifier::AtLeast(n) => {
                push_char(out, '{');
                push_decimal(out, *n as u64);
                push_char(out, ',');
                push_char(out, '}');
                assert(out@ =~= old(out)@ + quantifier_text(*self));
            },
            Quantifier::AtLeastLazy(n) => {
                push_char(out, '{');
                push_decimal(out, *n as u64);
                push_char(out, ',');
                push_char(out, '}');
                push_char(out, '?');
                assert(out@ =~= old(out)@ + quantifier_text(*self));
            },
            Quantifier::Between(n, m) => {
                push_char(out, '{');
                push_decimal(out, *n as u64);
                push_char(out, ',');
                push_decimal(out, *m as u64);
                push_char(out, '}');
                assert(out@ =~= old(out)@ + quantifier_text(*self));
            },
            Quantifier::BetweenLazy(n, m) => {
                push_char(out, '{');
                push_decimal(out, *n as u64);
                push_char(out, ',');
                push_decimal(out, *m as u64);
                push_char(out, '}');
                push_char(out, '?');
                assert(out@ =~= old(out)@ + quantifier_text(*self));
            },
        }
    }

    /// The notation of the quantifier.
    pub fn to_regex_string(&self) -> (s: String)
        ensures
            s@ == quantifier_text(*self),
    {
        let mut s = String::new();
        self.write_regex(&mut s);
        assert(s@ =~= quantifier_text(*self));
        s
    }
}

impl CharacterClass {
    /// Appends the notation of the class to `out`.
    pub fn write_regex(&self, out: &mut String)
        ensures
            final(out)@ == old(out)@ + class_text(self@),
    {
        push_char(out, '[');
        if self.negated {
            push_char(out, '^');
        }
        let ghost head = out@;
        let mut i: usize = 0;
        while i < self.items.len()
            invariant
                i <= self.items@.len(),
                out@ == head + class_items_text(self.items@, i as nat),
            decreases self.items@.len() - i,
        {
            match self.items[i] {
                ClassItem::Char(c) => {
                    push_char(out, c);
                },
                ClassItem::Range(lo, hi) => {
                    push_char(out, lo);
                    push_char(out, '-');
                    push_char(out, hi);
                },
                ClassItem::Shorthand(c) => {
                    push_char(out, '\\');
                    push_char(out, c);
                },
            }
            assert(out@ =~= head + class_items_text(self.items@, (i + 1) as nat));
            i += 1;
        }
        push_char(out, ']');
        assert(out@ =~= old(out)@ + class_text(self@));
    }

    /// The notation of the class.
    pub fn to_regex_string(&self) -> (s: String)
        ensures
            s@ == class_text(self@),
    {
        let mut s = String::new();
        self.write_regex(&mut s);
        assert(s@ =~= class_text(self@));
        s
    }
}

impl Expr {
    /// The expression that matches the empty string.
    pub fn empty() -> (e: Expr)
        ensures
            e@ == ExprView::Empty,
    {
        Expr::Empty
    }

    /// The expression that matches the character `c`.
    pub fn literal(c: char) -> (e: Expr)
        ensures
            e@ == ExprView::Literal(c),
    {
        Expr::Literal(c)
    }

    /// The expression `.`.
    pub fn any() -> (e: Expr)
        ensures
            e@ == ExprView::Any,
    {
        Expr::Any
    }

    /// The expressions of `exprs` one after the other: `Empty` for none, the
    /// expression itself for one.
    pub fn sequence(exprs: Vec<Expr>) -> (e: Expr)
        ensures
            e@ == if exprs@.len() == 0 {
                ExprView::Empty
            } else if exprs@.len() == 1 {
                exprs@[0]@
            } else {
                ExprView::Sequence(expr_views(exprs))
            },
    {
        let mut exprs = exprs;
        if exprs.len() == 0 {
            Expr::Empty
        } else if exprs.len() == 1 {
            match exprs.pop() {
                Some(only) => only,
                None => Expr::Empty,
            }
        } else {
            Expr::Sequence(exprs)
        }
    }

    /// A choice among the expressions of `exprs`: `Empty` for none, the
    /// expression itself for one.
    pub fn alternation(exprs: Vec<Expr>) -> (e: Expr)
        ensures
            e@ == if exprs@.len() == 0 {
                ExprView::Empty
            } else if exprs@.len() == 1 {
                exprs@[0]@
            } else {
                ExprView::Alternation(expr_views(exprs))
            },
    {
        let mut exprs = exprs;
        if exprs.len() == 0 {
            Expr::Empty
        } else if exprs.len() == 1 {
            match exprs.pop() {
                Some(only) => only,
                None => Expr::Empty,
            }
        } else {
            Expr::Alternation(exprs)
        }
    }

    /// The character class with the given items.
    pub fn char_class(negated: bool, items: Vec<ClassItem>) -> (e: Expr)
        ensures
            e@ == ExprView::CharacterClass(CharacterClassView { negated, items: items@ }),
    {
        Expr::CharacterClass(CharacterClass { negated, items })
    }

    /// `expr` under the quantifier `quantifier`.
    pub fn quantified(expr: Expr, quantifier: Quantifier) -> (e: Expr)
        ensures
            e@ == (ExprView::Quantified { expr: Box::new(expr@), quantifier }),
    {
        Expr::Quantified { expr: Box::new(expr), quantifier }
    }

    /// A capturing group around `expr`.
    pub fn group(expr: Expr) -> (e: Expr)
        ensures
            e@ == ExprView::Group(Box::new(expr@)),
    {
        Expr::Group(Box::new(expr))
    }

    /// A group around `expr` that captures nothing.
    pub fn non_capturing_group(expr: Expr) -> (e: Expr)
        ensures
            e@ == ExprView::NonCapturingGroup(Box::new(expr@)),
    {
        Expr::NonCapturingGroup(Box::new(expr))
    }

    /// A capturing group around `pattern` with the name `name`.
    pub fn named_group(name: &str, pattern: Expr) -> (e: Expr)
        ensures
            e@ == (ExprView::NamedGroup { name: name@, pattern: Box::new(pattern@) }),
    {
        Expr::NamedGroup { name: String::from_str(name), pattern: Box::new(pattern) }
    }

    /// `^`
    pub fn start_anchor() -> (e: Expr)
        ensures
            e@ == ExprView::StartAnchor,
    {
        Expr::StartAnchor
    }

    /// `$`
    pub fn end_anchor() -> (e: Expr)
        ensures
            e@ == ExprView::EndAnchor,
    {
        Expr::EndAnchor
    }

    /// A reference to what group `n` captured.
    pub fn backreference(n: u32) -> (e: Expr)
        ensures
            e@ == ExprView::Backreference(n),
    {
        Expr::Backreference(n)
    }

    /// A reference to a numbered group counted back from the last one.
    pub fn relative_backreference(n: i32) -> (e: Expr)
        ensures
            e@ == ExprView::RelativeBackreference(n),
    {
        Expr::RelativeBackreference(n)
    }

    /// A reference to what the group called `name` captured.
    pub fn named_backreference(name: &str) -> (e: Expr)
        ensures
            e@ == ExprView::NamedBackreference(name@),
    {
        Expr::NamedBackreference(String::from_str(name))
    }

    /// Appends the conventional notation of the expression to `out`.
    pub fn write_regex(&self, out: &mut String)
        ensures
            final(out)@ == old(out)@ + regex_text(self@),
        decreases self,
    {
        match self {
            Expr::Empty => {
                assert(out@ =~= old(out)@ + regex_text(self@));
            },
            Expr::Literal(c) => {
                if !char_is_plain(*c) {
                    push_char(out, '\\');
                }
                push_char(out, *c);
                assert(out@ =~= old(out)@ + regex_text(self@));
            },
            Expr::Any => {
                push_char(out, '.');
                assert(out@ =~= old(out)@ + regex_text(self@));
            },
            Expr::Sequence(exprs) => {
                proof {
                    lemma_expr_views(*exprs);
                }

                let ghost es = expr_views(*exprs);
                let mut i: usize = 0;
                assert(out@ =~= old(out)@ + sequence_text(es, 0));
                while i < exprs.len()
                    invariant
                        i <= exprs@.len(),
                        es == expr_views(*exprs),
                        es.len() == exprs@.len(),
                        forall|j: int| 0 <= j < exprs@.len() ==> es[j] == (#[trigger] exprs@[j])@,
                        out@ == old(out)@ + sequence_text(es, i as nat),
                        decreases_to!(*self => *exprs),
                    decreases exprs@.len() - i,
                {
                    assert(decreases_to!(*exprs => exprs[i as int]));
                    exprs[i].write_regex(out);
                    assert(out@ =~= old(out)@ + sequence_text(es, (i + 1) as nat));
                    i += 1;
                }
            },
            Expr::Alternation(exprs) => {
                proof {
                    lemma_expr_views(*exprs);
                }
                let ghost es = expr_views(*exprs);
                let mut i: usize = 0;
                assert(out@ =~= old(out)@ + alternation_text(es, 0));
                while i < exprs.len()
                    invariant
                        i <= exprs@.len(),
                        es == expr_views(*exprs),
                        es.len() == exprs@.len(),
                        forall|j: int| 0 <= j < exprs@.len() ==> es[j] == (#[trigger] exprs@[j])@,
                        out@ == old(out)@ + alternation_text(es, i as nat),
                        decreases_to!(*self => *exprs),
                    decreases exprs@.len() - i,
                {
                    if i > 0 {
                        push_char(out, '|');
                    }
                    assert(decreases_to!(*exprs => exprs[i as int]));
                    exprs[i].write_regex(out);
                    assert(out@ =~= old(out)@ + alternation_text(es, (i + 1) as nat));
                    i += 1;
                }
            },
            Expr::CharacterClass(cc) => {
                cc.write_regex(out);
            },
            Expr::Quantified { expr, quantifier } => {
                let parens = match **expr {
                    Expr::Alternation(_) => true,
                    _ => false,
                };
                if parens {
                    out.append("(?:");
                    expr.write_regex(out);
                    push_char(out, ')');
                } else {
                    expr.write_regex(out);
                }
                quantifier.write_regex(out);
                assert(out@ =~= old(out)@ + regex_text(self@));
            },
            Expr::Group(inner) => {
                push_char(out, '(');
                inner.write_regex(out);
                push_char(out, ')');
                assert(out@ =~= old(out)@ + regex_text(self@));
            },
            Expr::NonCapturingGroup(inner) => {
                out.append("(?:");
                inner.write_regex(out);
                push_char(out, ')');
                assert(out@ =~= old(out)@ + regex_text(self@));
            },
            Expr::NamedGroup { name, pattern } => {
                out.append("(?<");
                out.append(name.as_str());
                push_char(out, '>');
                pattern.write_regex(out);
                push_char(out, ')');
                assert(out@ =~= old(out)@ + regex_text(self@));
            },
            Expr::StartAnchor => {
                push_char(out, '^');
                assert(out@ =~= old(out)@ + regex_text(self@));
            },
            Expr::EndAnchor => {
                push_char(out, '$');
                assert(out@ =~= old(out)@ + regex_text(self@));
            },
            Expr::Backreference(n) => {
                push_char(out, '\\');
                push_decimal(out, *n as u64);
                assert(out@ =~= old(out)@ + regex_text(self@));
            },
            Expr::RelativeBackreference(n) => {
                out.append("\\g{");
                push_signed(out, *n);
                push_char(out, '}');
                assert(out@ =~= old(out)@ + regex_text(self@));
            },
            Expr::NamedBackreference(name) => {
                out.append("\\g{");
                out.append(name.as_str());
                push_char(out, '}');
                assert(out@ =~= old(out)@ + regex_text(self@));
            },
            Expr::Shorthand(c) => {
                push_char(out, '\\');
                push_char(out, *c);
                assert(out@ =~= old(out)@ + regex_text(self@));
            },
            Expr::WordBoundary => {
                out.append("\\b");
            },
            Expr::NonWordBoundary => {
                out.append("\\B");
            },
            Expr::Lookahead(inner) => {
                out.append("(@>:");
                inner.write_regex(out);
                push_char(out, ')');
                assert(out@ =~= old(out)@ + regex_text(self@));
            },
            Expr::NegativeLookahead(inner) => {
                out.append("(@>~:");
                inner.write_regex(out);
                push_char(out, ')');
                assert(out@ =~= old(out)@ + regex_text(self@));
            },
            Expr::Lookbehind(inner) => {
                out.append("(@<:");
                inner.write_regex(out);
                push_char(out, ')');
                assert(out@ =~= old(out)@ + regex_text(self@));
            },
            Expr::NegativeLookbehind(inner) => {
                out.append("(@<~:");
                inner.write_regex(out);
                push_char(out, ')');
                assert(out@ =~= old(out)@ + regex_text(self@));
            },
            Expr::AtomicGroup(inner) => {
                out.append("(@*:");
                inner.write_regex(out);
                push_char(out, ')');
                assert(out@ =~= old(out)@ + regex_text(self@));
            },
            Expr::ConditionalGroup(inner) => {
                out.append("(@%:");
                inner.write_regex(out);
                push_char(out, ')');
                assert(out@ =~= old(out)@ + regex_text(self@));
            },
        }
    }

    /// The conventional notation of the expression.
    pub fn to_regex_string(&self) -> (s: String)
        ensures
            s@ == regex_text(self@),
    {
        let mut s = String::new();
        self.write_regex(&mut s);
        assert(s@ =~= regex_text(self@));
        s
    }

    /// The conventional notation of the expression.
    pub fn to_string(&self) -> (s: String)
        ensures
            s@ == regex_text(self@),
    {
        self.to_regex_string()
    }
}

} // verus!
