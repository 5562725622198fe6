//! Replacement templates: text with references to what a match captured.
//!
//! In a template `\1`, `\2`, ... and `\g{1}`, `\g{2}`, ... stand for the
//! text of a group, `\g{name}` for the text of a named group, `\G` and
//! `\g{0}` for the whole match. A backslash before any other character
//! makes that character stand for itself. All positions count codepoints.

use crate::lexer::{capped_number, char_at};
use crate::text::{
    all_digits, char_is_digit, chars_of, decimal_value, digit_run, is_digit,
    lemma_digit_run_bound, lemma_run_until_bound, parse_decimal, push_char, push_chars, run_until,
    str_eq, string_of,
};
use vstd::prelude::*;
use vstd::string::*;

verus! {

/// One part of a template.
#[derive(Debug, Clone, PartialEq)]
pub enum ReplacementPart {
    /// Text that stands for itself.
    Literal(String),
    /// The text of the group with this index; of the whole match for 0.
    BackrefNumber(u32),
    /// The text of the group with this name.
    BackrefName(String),
    /// The text of the whole match.
    EntireMatch,
}

pub enum PartView {
    Literal(Seq<char>),
    BackrefNumber(u32),
    BackrefName(Seq<char>),
    EntireMatch,
}

impl View for ReplacementPart {
    type V = PartView;

    open spec fn view(&self) -> PartView {
        match self {
            ReplacementPart::Literal(text) => PartView::Literal(text@),
            ReplacementPart::BackrefNumber(n) => PartView::BackrefNumber(*n),
            ReplacementPart::BackrefName(name) => PartView::BackrefName(name@),
            ReplacementPart::EntireMatch => PartView::EntireMatch,
        }
    }
}

/// The views of the parts of `v`, in order.
pub open spec fn part_views(v: Seq<ReplacementPart>) -> Seq<PartView> {
    v.map_values(|p: ReplacementPart| p@)
}

/// What can be wrong with a template.
#[derive(Debug, Clone, PartialEq)]
pub enum ReplacementError {
    /// A reference that cannot be read.
    InvalidBackreference(String),
}

impl ReplacementError {
    /// The message of this error.
    pub open spec fn text(&self) -> Seq<char> {
        match self {
            ReplacementError::InvalidBackreference(what) => "invalid backreference: "@ + what@,
        }
    }

    /// The message of this error.
    pub fn to_string(&self) -> (s: String)
        ensures
            s@ == self.text(),
    {
        match self {
            ReplacementError::InvalidBackreference(what) => {
                let mut s = String::from_str("invalid backreference: ");
                s.append(what.as_str());
                s
            },
        }
    }
}

/// `parts` with the literal text `literal` behind them, if there is any.
pub open spec fn flushed(parts: Seq<PartView>, literal: Seq<char>) -> Seq<PartView> {
    if literal.len() == 0 {
        parts
    } else {
        parts.push(PartView::Literal(literal))
    }
}

/// `content` without the plus sign in front of it, if there is one.
pub open spec fn unsigned(content: Seq<char>) -> Seq<char> {
    if content.len() > 0 && content[0] == '+' {
        content.subrange(1, content.len() as int)
    } else {
        content
    }
}

/// The part that `\g{content}` stands for: the whole match for `0`, a
/// group by its number for digits that denote a number that a `u32` holds,
/// with or without a plus sign in front, and a group by its name for
/// anything else.
pub open spec fn braced_part(content: Seq<char>) -> PartView {
    if content == seq!['0'] {
        PartView::EntireMatch
    } else if unsigned(content).len() > 0 && all_digits(unsigned(content)) && decimal_value(
        unsigned(content),
    ) <= u32::MAX {
        PartView::BackrefNumber(decimal_value(unsigned(content)) as u32)
    } else {
        PartView::BackrefName(content)
    }
}

/// The parts of the template `s` from `pos` on, behind `parts` and the
/// literal text `literal` that has been read but not yet made a part.
pub open spec fn parts_from(s: Seq<char>, pos: int, literal: Seq<char>, parts: Seq<PartView>) -> Seq<
    PartView,
>
    decreases s.len() - pos,
    via parts_from_ends
{
    if pos < 0 || pos >= s.len() {
        flushed(parts, literal)
    } else if s[pos] != '\\' {
        parts_from(s, pos + 1, literal.push(s[pos]), parts)
    } else {
        match char_at(s, pos + 1) {
            None => parts_from(s, pos + 1, literal.push('\\'), parts),
            Some(next) => {
                if is_digit(next) {
                    parts_from(
                        s,
                        pos + 1 + digit_run(s, pos + 1),
                        Seq::empty(),
                        flushed(parts, literal).push(
                            PartView::BackrefNumber(capped_number(s, pos + 1)),
                        ),
                    )
                } else if next == 'g' {
                    let n = run_until(s, pos + 3, '}');
                    if char_at(s, pos + 2) == Some('{') && pos + 3 + n < s.len() {
                        parts_from(
                            s,
                            pos + 3 + n + 1,
                            Seq::empty(),
                            flushed(parts, literal).push(
                                braced_part(s.subrange(pos + 3, pos + 3 + n)),
                            ),
                        )
                    } else {
                        parts_from(s, pos + 2, literal.push('\\').push('g'), parts)
                    }
                } else if next == 'G' {
                    parts_from(
                        s,
                        pos + 2,
                        Seq::empty(),
                        flushed(parts, literal).push(PartView::EntireMatch),
                    )
                } else {
                    parts_from(s, pos + 2, literal.push(next), parts)
                }
            },
        }
    }
}

#[via_fn]
proof fn parts_from_ends(s: Seq<char>, pos: int, literal: Seq<char>, parts: Seq<PartView>) {
    if 0 <= pos < s.len() {
        if pos + 1 < s.len() {
            lemma_digit_run_bound(s, pos + 1);
            if pos + 3 <= s.len() {
                lemma_run_until_bound(s, pos + 3, '}');
            }
        }
    }
}

/// The parts of the template `s`.
pub open spec fn template_parts(s: Seq<char>) -> Seq<PartView> {
    parts_from(s, 0, Seq::empty(), Seq::empty())
}

/// The text of `input` from `start` to `end`; nothing if that is no span
/// of `input`.
pub open spec fn span_text(input: Seq<char>, start: int, end: int) -> Seq<char> {
    if 0 <= start <= end <= input.len() {
        input.subrange(start, end)
    } else {
        Seq::empty()
    }
}

/// The text of group `n`: the whole match for 0, and nothing for a group
/// that `groups` does not hold.
pub open spec fn group_text(
    input: Seq<char>,
    whole: (usize, usize),
    groups: Seq<(usize, usize)>,
    n: u32,
) -> Seq<char> {
    if n == 0 {
        span_text(input, whole.0 as int, whole.1 as int)
    } else if n - 1 < groups.len() {
        span_text(input, groups[n - 1].0 as int, groups[n - 1].1 as int)
    } else {
        Seq::empty()
    }
}

/// The index that the first entry of `names` from entry `i` on gives to the
/// name `name`.
pub open spec fn index_for(names: Seq<(Seq<char>, u32)>, name: Seq<char>, i: int) -> Option<u32>
    decreases names.len() - i,
{
    if i < 0 || i >= names.len() {
        None
    } else if names[i].0 == name {
        Some(names[i].1)
    } else {
        index_for(names, name, i + 1)
    }
}

/// The text that `part` stands for.
pub open spec fn part_text(
    part: PartView,
    input: Seq<char>,
    whole: (usize, usize),
    groups: Seq<(usize, usize)>,
    names: Seq<(Seq<char>, u32)>,
) -> Seq<char> {
    match part {
        PartView::Literal(text) => text,
        PartView::BackrefNumber(n) => group_text(input, whole, groups, n),
        PartView::BackrefName(name) => match index_for(names, name, 0) {
            Some(n) => group_text(input, whole, groups, n),
            None => Seq::empty(),
        },
        PartView::EntireMatch => span_text(input, whole.0 as int, whole.1 as int),
    }
}

/// The texts that the first `n` parts of `parts` stand for, one after the
/// other.
pub open spec fn applied(
    parts: Seq<PartView>,
    n: nat,
    input: Seq<char>,
    whole: (usize, usize),
    groups: Seq<(usize, usize)>,
    names: Seq<(Seq<char>, u32)>,
) -> Seq<char>
    decreases n,
{
    if n == 0 || n > parts.len() {
        Seq::empty()
    } else {
        applied(parts, (n - 1) as nat, input, whole, groups, names) + part_text(
            parts[n - 1],
            input,
            whole,
            groups,
            names,
        )
    }
}

/// The names of `v` as sequences of codepoints, each with its index.
pub open spec fn name_views(v: Seq<(String, u32)>) -> Seq<(Seq<char>, u32)> {
    v.map_values(|p: (String, u32)| (p.0@, p.1))
}

/// A template without a backslash from `pos` on is literal text from there
/// on.
pub proof fn lemma_plain_from(s: Seq<char>, pos: int, literal: Seq<char>, parts: Seq<PartView>)
    requires
        0 <= pos <= s.len(),
        forall|i: int| pos <= i < s.len() ==> #[trigger] s[i] != '\\',
    ensures
        parts_from(s, pos, literal, parts) == flushed(
            parts,
            literal + s.subrange(pos, s.len() as int),
        ),
    decreases s.len() - pos,
{
    let tail = s.subrange(pos, s.len() as int);
    if pos < s.len() {
        lemma_plain_from(s, pos + 1, literal.push(s[pos]), parts);
        assert(literal.push(s[pos]) + s.subrange(pos + 1, s.len() as int) =~= literal + tail);
    } else {
        assert(literal + tail =~= literal);
    }
}

/// A template that consists of literal text alone stands for that text,
/// whatever the match: applying it gives the template back.
pub proof fn lemma_literal_template(
    s: Seq<char>,
    input: Seq<char>,
    whole: (usize, usize),
    groups: Seq<(usize, usize)>,
    names: Seq<(Seq<char>, u32)>,
)
    requires
        forall|i: int| 0 <= i < s.len() ==> #[trigger] s[i] != '\\',
    ensures
        applied(template_parts(s), template_parts(s).len(), input, whole, groups, names) == s,
{
    lemma_plain_from(s, 0, Seq::empty(), Seq::empty());
    assert(Seq::<char>::empty() + s.subrange(0, s.len() as int) =~= s);
    let parts = template_parts(s);
    if s.len() == 0 {
        assert(parts =~= Seq::<PartView>::empty());
    } else {
        assert(parts =~= seq![PartView::Literal(s)]);
        assert(applied(parts, 0, input, whole, groups, names) =~= Seq::<char>::empty());
        assert(applied(parts, 1, input, whole, groups, names) =~= s);
    }
}

/// A parsed template.
#[derive(Debug, Clone)]
pub struct Replacement {
    parts: Vec<ReplacementPart>,
}

impl View for Replacement {
    type V = Seq<PartView>;

    closed spec fn view(&self) -> Seq<PartView> {
        part_views(self.parts@)
    }
}

impl Replacement {
    /// Reads the text from the current position up to `delimiter` or the
    /// end, and returns it with the position at which it stopped.
    fn read_until(chars: &Vec<char>, from: usize, delimiter: char) -> (r: (String, usize))
        requires
            from <= chars@.len(),
        ensures
            r.1 == from + run_until(chars@, from as int, delimiter),
            r.1 <= chars@.len(),
            r.0@ == chars@.subrange(from as int, r.1 as int),
    {
        proof {
            lemma_run_until_bound(chars@, from as int, delimiter);
        }
        let mut pos = from;
        while pos < chars.len() && chars[pos] != delimiter
            invariant
                from <= pos <= chars@.len(),
                run_until(chars@, from as int, delimiter) == (pos - from) + run_until(
                    chars@,
                    pos as int,
                    delimiter,
                ),
            decreases chars@.len() - pos,
        {
            pos += 1;
        }
        (string_of(chars, from, pos), pos)
    }

    /// Makes a part of the literal text read so far, if there is any.
    fn flush(parts: &mut Vec<ReplacementPart>, literal: &mut String)
        ensures
            part_views(final(parts)@) == flushed(part_views(old(parts)@), old(literal)@),
            final(literal)@ == Seq::<char>::empty(),
    {
        let ghost before = part_views(parts@);
        if literal.as_str().unicode_len() > 0 {
            let text = literal.clone();
            parts.push(ReplacementPart::Literal(text));
            assert(part_views(parts@) =~= before.push(PartView::Literal(text@)));
            *literal = String::new();
        } else {
            assert(literal@ =~= Seq::<char>::empty());
        }
    }

    /// The part that `\g{content}` stands for.
    fn braced(content: String) -> (part: ReplacementPart)
        ensures
            part@ == braced_part(content@),
    {
        let digits = chars_of(content.as_str());
        let len = digits.len();
        if len == 1 && digits[0] == '0' {
            assert(digits@ =~= seq!['0']);
            return ReplacementPart::EntireMatch;
        }
        assert(content@ != seq!['0']) by {
            if content@ == seq!['0'] {
                assert(digits@.len() == 1 && digits@[0] == '0');
            }
        }
        let first: usize = if len > 0 && digits[0] == '+' {
            1
        } else {
            0
        };
        assert(unsigned(content@) == digits@.subrange(first as int, len as int)) by {
            assert(digits@.subrange(0, len as int) =~= digits@);
        }
        let mut i: usize = first;
        while i < len && char_is_digit(digits[i])
            invariant
                first <= i <= len,
                len == digits@.len(),
                forall|j: int| first <= j < i ==> is_digit(#[trigger] digits@[j]),
            decreases len - i,
        {
            i += 1;
        }
        let ghost number = digits@.subrange(first as int, len as int);
        if first < len && i == len {
            assert forall|j: int| 0 <= j < number.len() implies is_digit(#[trigger] number[j]) by {
                assert(number[j] == digits@[first + j]);
            }
            match parse_decimal(&digits, first, len, u32::MAX) {
                Some(n) => {
                    return ReplacementPart::BackrefNumber(n);
                },
                None => {},
            }
        } else if first < len {
            assert(!is_digit(digits@[i as int]));
            assert(number[i - first] == digits@[i as int]);
        }
        ReplacementPart::BackrefName(content)
    }

    /// Parses the template `input`. Every text is a template: what looks
    /// like a reference and is none stands for itself.
    pub fn parse(input: &str) -> (r: Result<Replacement, ReplacementError>)
        ensures
            r is Ok,
            r->Ok_0@ == template_parts(input@),
    {
        let chars = chars_of(input);
        let len = chars.len();
        let ghost s = chars@;
        let mut parts: Vec<ReplacementPart> = Vec::new();
        let mut literal = String::new();
        let mut pos: usize = 0;
        assert(part_views(parts@) =~= Seq::<PartView>::empty());
        while pos < len
            invariant
                pos <= len,
                len == chars@.len(),
                s == chars@,
                template_parts(s) == parts_from(s, pos as int, literal@, part_views(parts@)),
            decreases len - pos,
        {
            let c = chars[pos];
            let ghost seen = part_views(parts@);
            proof {
                if pos + 1 < len {
                    lemma_digit_run_bound(s, pos + 1);
                    if pos + 3 <= len {
                        lemma_run_until_bound(s, pos + 3, '}');
                    }
                }
            }
            if c != '\\' {
                push_char(&mut literal, c);
                pos += 1;
            } else if pos + 1 >= len {
                push_char(&mut literal, c);
                pos += 1;
            } else {
                let next = chars[pos + 1];
                if char_is_digit(next) {
                    Self::flush(&mut parts, &mut literal);
                    let ghost flushed_parts = part_views(parts@);
                    let mut end = pos + 1;
                    while end < len && char_is_digit(chars[end])
                        invariant
                            pos + 1 <= end <= len,
                            len == chars@.len(),
                            s == chars@,
                            digit_run(s, pos + 1) == (end - (pos + 1)) + digit_run(s, end as int),
                        decreases len - end,
                    {
                        end += 1;
                    }
                    assert(all_digits(s.subrange(pos + 1, end as int)));
                    let number = match parse_decimal(&chars, pos + 1, end, u32::MAX) {
                        Some(n) => n,
                        None => u32::MAX,
                    };
                    parts.push(ReplacementPart::BackrefNumber(number));
                    assert(part_views(parts@) =~= flushed_parts.push(PartView::BackrefNumber(number)));
                    pos = end;
                } else if next == 'g' {
                    let opened = pos + 2 < len && chars[pos + 2] == '{';
                    if opened {
                        let (content, stop) = Self::read_until(&chars, pos + 3, '}');
                        if stop < len {
                            Self::flush(&mut parts, &mut literal);
                            let ghost flushed_parts = part_views(parts@);
                            let part = Self::braced(content);
                            parts.push(part);
                            assert(part_views(parts@) =~= flushed_parts.push(part@));
                            pos = stop + 1;
                        } else {
                            push_char(&mut literal, c);
                            push_char(&mut literal, next);
                            pos += 2;
                        }
                    } else {
                        push_char(&mut literal, c);
                        push_char(&mut literal, next);
                        pos += 2;
                    }
                } else if next == 'G' {
                    Self::flush(&mut parts, &mut literal);
                    let ghost flushed_parts = part_views(parts@);
                    parts.push(ReplacementPart::EntireMatch);
                    assert(part_views(parts@) =~= flushed_parts.push(PartView::EntireMatch));
                    pos += 2;
                } else {
                    push_char(&mut literal, next);
                    pos += 2;
                }
            }
        }
        Self::flush(&mut parts, &mut literal);
        Ok(Replacement { parts })
    }

    /// Appends the text of `input` from `start` to `end` to `out`; nothing
    /// if that is no span of `input`.
    fn push_span(out: &mut String, input: &Vec<char>, start: usize, end: usize)
        ensures
            final(out)@ == old(out)@ + span_text(input@, start as int, end as int),
    {
        if start <= end && end <= input.len() {
            push_chars(out, input, start, end);
        } else {
            assert(out@ + Seq::<char>::empty() =~= out@);
        }
    }

    /// Appends the text of group `n` to `out`.
    fn push_group(
        out: &mut String,
        input: &Vec<char>,
        whole: (usize, usize),
        groups: &[(usize, usize)],
        n: u32,
    )
        ensures
            final(out)@ == old(out)@ + group_text(input@, whole, groups@, n),
    {
        if n == 0 {
            Self::push_span(out, input, whole.0, whole.1);
        } else if ((n - 1) as usize) < groups.len() {
            let span = groups[(n - 1) as usize];
            Self::push_span(out, input, span.0, span.1);
        } else {
            assert(out@ + Seq::<char>::empty() =~= out@);
        }
    }

    /// The index that `names` gives to `name`.
    fn lookup(names: &[(String, u32)], name: &String) -> (r: Option<u32>)
        ensures
            r == index_for(name_views(names@), name@, 0),
    {
        let ghost views = name_views(names@);
        let mut i: usize = 0;
        while i < names.len()
            invariant
                i <= names@.len(),
                views == name_views(names@),
                index_for(views, name@, 0) == index_for(views, name@, i as int),
            decreases names@.len() - i,
        {
            assert(views[i as int] == (names@[i as int].0@, names@[i as int].1));
            if str_eq(names[i].0.as_str(), name.as_str()) {
                return Some(names[i].1);
            }
            i += 1;
        }
        None
    }

    /// The template with every reference replaced by the text it stands
    /// for. The match reaches from `match_start` to `match_end` in
    /// `input`; `groups` holds the span of group 1, of group 2 and so on.
    /// A reference by name stands for nothing.
    pub fn apply(
        &self,
        input: &str,
        match_start: usize,
        match_end: usize,
        groups: &[(usize, usize)],
    ) -> (text: String)
        ensures
            text@ == applied(
                self@,
                self@.len(),
                input@,
                (match_start, match_end),
                groups@,
                Seq::empty(),
            ),
    {
        let names: Vec<(String, u32)> = Vec::new();
        assert(name_views(names@) =~= Seq::empty());
        self.apply_with_names(input, match_start, match_end, groups, names.as_slice())
    }

    /// As [`Replacement::apply`]; a reference by name stands for the text
    /// of the group whose index `named_groups` gives for the name.
    pub fn apply_with_names(
        &self,
        input: &str,
        match_start: usize,
        match_end: usize,
        groups: &[(usize, usize)],
        named_groups: &[(String, u32)],
    ) -> (text: String)
        ensures
            text@ == applied(
                self@,
                self@.len(),
                input@,
                (match_start, match_end),
                groups@,
                name_views(named_groups@),
            ),
    {
        let chars = chars_of(input);
        let whole = (match_start, match_end);
        let ghost names = name_views(named_groups@);
        let mut result = String::new();
        let mut i: usize = 0;
        assert(result@ =~= applied(self@, 0, chars@, whole, groups@, names));
        while i < self.parts.len()
            invariant
                i <= self.parts@.len(),
                chars@ == input@,
                whole == (match_start, match_end),
                names == name_views(named_groups@),
                result@ == applied(self@, i as nat, chars@, whole, groups@, names),
            decreases self.parts@.len() - i,
        {
            assert(self@[i as int] == self.parts@[i as int]@);
            match &self.parts[i] {
                ReplacementPart::Literal(text) => {
                    result.append(text.as_str());
                },
                ReplacementPart::BackrefNumber(n) => {
                    Self::push_group(&mut result, &chars, whole, groups, *n);
                },
                ReplacementPart::BackrefName(name) => {
                    match Self::lookup(named_groups, name) {
                        Some(n) => {
                            Self::push_group(&mut result, &chars, whole, groups, n);
                        },
                        None => {
                            assert(result@ + Seq::<char>::empty() =~= result@);
                        },
                    }
                },
                ReplacementPart::EntireMatch => {
                    Self::push_span(&mut result, &chars, match_start, match_end);
                },
            }
            i += 1;
        }
        result
    }

    /// The parts of the template.
    pub fn parts(&self) -> (r: &[ReplacementPart])
        ensures
            part_views(r@) == self@,
    {
        self.parts.as_slice()
    }
}

} // verus!
