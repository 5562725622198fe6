//! Character predicates and string building blocks shared by every stage.
//!
//! All positions and lengths in this crate count codepoints, never bytes.

use vstd::prelude::*;
use vstd::string::*;

verus! {

/// `c` is one of the ten ASCII decimal digits.
pub open spec fn is_digit(c: char) -> bool {
    '0' <= c && c <= '9'
}

/// The value of the decimal digit `c`.
pub open spec fn digit_value(c: char) -> nat
    recommends
        is_digit(c),
{
    (c as u32 - '0' as u32) as nat
}

/// The digit character that stands for `d`, for `d` below ten.
pub open spec fn digit_char(d: nat) -> char
    recommends
        d < 10,
{
    ((d + 48) as u8) as char
}

/// `c` is an ASCII capital letter.
pub open spec fn is_upper(c: char) -> bool {
    'A' <= c && c <= 'Z'
}

/// `c` is an ASCII letter, an ASCII digit or the underscore.
pub open spec fn is_word(c: char) -> bool {
    ('a' <= c && c <= 'z') || is_upper(c) || is_digit(c) || c == '_'
}

/// `c` is ASCII whitespace: space, tab, line feed, form feed or carriage return.
pub open spec fn is_space(c: char) -> bool {
    c == ' ' || c == '\t' || c == '\n' || c == '\x0C' || c == '\r'
}

/// The code of `c` with the ASCII capital letters folded onto the small ones.
pub open spec fn folded(c: char) -> u32 {
    if is_upper(c) {
        (c as u32 + 32) as u32
    } else {
        c as u32
    }
}

/// `c` means nothing in a pattern but itself.
pub open spec fn is_plain(c: char) -> bool {
    c != '\\' && c != '(' && c != ')' && c != '[' && c != ']' && c != '{' && c != '}' && c != ':'
        && c != ',' && c != '|' && c != '^' && c != '$' && c != '.' && c != '*' && c != '+' && c
        != '?'
}

/// Whether Unicode gives `c` the Alphabetic property.
pub uninterp spec fn unicode_alphabetic(c: char) -> bool;

/// Whether Unicode counts `c` as alphabetic or numeric.
pub uninterp spec fn unicode_alphanumeric(c: char) -> bool;

/// `c` may start a group name: an ASCII letter, the underscore, or another
/// character that Unicode counts as a letter. A character that means
/// something in a pattern is part of no name.
pub open spec fn is_name_start(c: char) -> bool {
    is_plain(c) && ((is_word(c) && !is_digit(c)) || unicode_alphabetic(c))
}

/// `c` may continue a group name: an ASCII letter or digit, the underscore,
/// or another character that Unicode counts as a letter or a number. A
/// character that means something in a pattern is part of no name.
pub open spec fn is_name_char(c: char) -> bool {
    is_plain(c) && (is_word(c) || unicode_alphanumeric(c))
}

/// The decimal numeral of `n`, without leading zeros.
pub open spec fn decimal(n: nat) -> Seq<char>
    decreases n,
{
    if n < 10 {
        seq![digit_char(n)]
    } else {
        decimal(n / 10).push(digit_char(n % 10))
    }
}

/// The numeral of `n` with a minus sign in front of negative values.
pub open spec fn signed_decimal(n: int) -> Seq<char> {
    if n < 0 {
        seq!['-'] + decimal((-n) as nat)
    } else {
        decimal(n as nat)
    }
}

/// Every element of `s` is a decimal digit.
pub open spec fn all_digits(s: Seq<char>) -> bool {
    forall|i: int| 0 <= i < s.len() ==> is_digit(#[trigger] s[i])
}

/// The number that the digit string `s` denotes; the empty string denotes zero.
pub open spec fn decimal_value(s: Seq<char>) -> nat
    decreases s.len(),
{
    if s.len() == 0 {
        0
    } else {
        decimal_value(s.drop_last()) * 10 + digit_value(s.last())
    }
}

/// The length of the longest run of digits in `s` that starts at `from`.
pub open spec fn digit_run(s: Seq<char>, from: int) -> nat
    decreases s.len() - from,
{
    if 0 <= from < s.len() && is_digit(s[from]) {
        1 + digit_run(s, from + 1)
    } else {
        0
    }
}

/// The length of the longest run of name characters in `s` that starts at `from`.
pub open spec fn name_run(s: Seq<char>, from: int) -> nat
    decreases s.len() - from,
{
    if 0 <= from < s.len() && is_name_char(s[from]) {
        1 + name_run(s, from + 1)
    } else {
        0
    }
}

/// The number of elements of `s` from `from` on that come before the first
/// `stop`, or before the end if there is none.
pub open spec fn run_until(s: Seq<char>, from: int, stop: char) -> nat
    decreases s.len() - from,
{
    if 0 <= from < s.len() && s[from] != stop {
        1 + run_until(s, from + 1, stop)
    } else {
        0
    }
}

pub proof fn lemma_digit_run_bound(s: Seq<char>, from: int)
    requires
        0 <= from <= s.len(),
    ensures
        from + digit_run(s, from) <= s.len(),
        forall|i: int| from <= i < from + digit_run(s, from) ==> is_digit(#[trigger] s[i]),
        from + digit_run(s, from) < s.len() ==> !is_digit(s[from + digit_run(s, from)]),
    decreases s.len() - from,
{
    if from < s.len() && is_digit(s[from]) {
        lemma_digit_run_bound(s, from + 1);
    }
}

pub proof fn lemma_name_run_bound(s: Seq<char>, from: int)
    requires
        0 <= from <= s.len(),
    ensures
        from + name_run(s, from) <= s.len(),
    decreases s.len() - from,
{
    if from < s.len() && is_name_char(s[from]) {
        lemma_name_run_bound(s, from + 1);
    }
}

pub proof fn lemma_run_until_bound(s: Seq<char>, from: int, stop: char)
    requires
        0 <= from <= s.len(),
    ensures
        from + run_until(s, from, stop) <= s.len(),
        forall|i: int| from <= i < from + run_until(s, from, stop) ==> #[trigger] s[i] != stop,
        from + run_until(s, from, stop) < s.len() ==> s[from + run_until(s, from, stop)] == stop,
    decreases s.len() - from,
{
    if from < s.len() && s[from] != stop {
        lemma_run_until_bound(s, from + 1, stop);
    }
}

pub fn char_is_digit(c: char) -> (b: bool)
    ensures
        b == is_digit(c),
{
    '0' <= c && c <= '9'
}

pub fn char_digit_value(c: char) -> (v: u32)
    requires
        is_digit(c),
    ensures
        v == digit_value(c),
        v <= 9,
{
    c as u32 - '0' as u32
}

pub fn char_is_upper(c: char) -> (b: bool)
    ensures
        b == is_upper(c),
{
    'A' <= c && c <= 'Z'
}

pub fn char_is_word(c: char) -> (b: bool)
    ensures
        b == is_word(c),
{
    ('a' <= c && c <= 'z') || char_is_upper(c) || char_is_digit(c) || c == '_'
}

pub fn char_is_space(c: char) -> (b: bool)
    ensures
        b == is_space(c),
{
    c == ' ' || c == '\t' || c == '\n' || c == '\x0C' || c == '\r'
}

pub fn char_folded(c: char) -> (v: u32)
    ensures
        v == folded(c),
{
    if char_is_upper(c) {
        c as u32 + 32
    } else {
        c as u32
    }
}

/// Calls `char::is_alphabetic`. The result is the Unicode Alphabetic property
/// of `c`, which this crate leaves as a table it does not spell out.
#[verifier::external_body]
pub(crate) fn char_is_alphabetic(c: char) -> (b: bool)
    ensures
        b == unicode_alphabetic(c),
{
    c.is_alphabetic()
}

/// Calls `char::is_alphanumeric`. The result is the Unicode alphabetic-or-numeric
/// classification of `c`, which this crate leaves as a table it does not spell out.
#[verifier::external_body]
pub(crate) fn char_is_alphanumeric(c: char) -> (b: bool)
    ensures
        b == unicode_alphanumeric(c),
{
    c.is_alphanumeric()
}

pub fn char_is_plain(c: char) -> (b: bool)
    ensures
        b == is_plain(c),
{
    c != '\\' && c != '(' && c != ')' && c != '[' && c != ']' && c != '{' && c != '}' && c != ':'
        && c != ',' && c != '|' && c != '^' && c != '$' && c != '.' && c != '*' && c != '+' && c
        != '?'
}

pub fn char_is_name_start(c: char) -> (b: bool)
    ensures
        b == is_name_start(c),
{
    char_is_plain(c) && ((char_is_word(c) && !char_is_digit(c)) || char_is_alphabetic(c))
}

pub fn char_is_name_char(c: char) -> (b: bool)
    ensures
        b == is_name_char(c),
{
    char_is_plain(c) && (char_is_word(c) || char_is_alphanumeric(c))
}

/// Calls `String::push`, which appends the one codepoint `c` to `s`.
#[verifier::external_body]
pub(crate) fn push_char(s: &mut String, c: char)
    ensures
        final(s)@ == old(s)@.push(c),
{
    s.push(c)
}

/// Calls `str::eq`, which holds exactly when the two strings are made of the
/// same codepoints in the same order.
#[verifier::external_body]
pub(crate) fn str_eq(a: &str, b: &str) -> (same: bool)
    ensures
        same == (a@ == b@),
{
    a.eq(b)
}

/// The codepoints of `s`, in order.
pub fn chars_of(s: &str) -> (v: Vec<char>)
    ensures
        v@ == s@,
{
    let mut v: Vec<char> = Vec::new();
    for c in it: s.chars()
        invariant
            v@ == it.seq().take(it.index() as int),
            it.seq() == s@,
    {
        v.push(c);
    }
    v
}

/// The string made of `v[from..to]`.
pub fn string_of(v: &Vec<char>, from: usize, to: usize) -> (s: String)
    requires
        from <= to <= v@.len(),
    ensures
        s@ == v@.subrange(from as int, to as int),
{
    let mut s = String::new();
    let mut i = from;
    while i < to
        invariant
            from <= i <= to <= v@.len(),
            s@ == v@.subrange(from as int, i as int),
        decreases to - i,
    {
        push_char(&mut s, v[i]);
        assert(s@ =~= v@.subrange(from as int, i + 1));
        i += 1;
    }
    s
}

/// Appends `v[from..to]` to `out`.
pub fn push_chars(out: &mut String, v: &Vec<char>, from: usize, to: usize)
    requires
        from <= to <= v@.len(),
    ensures
        final(out)@ == old(out)@ + v@.subrange(from as int, to as int),
{
    let mut i = from;
    while i < to
        invariant
            from <= i <= to <= v@.len(),
            out@ == old(out)@ + v@.subrange(from as int, i as int),
        decreases to - i,
    {
        push_char(out, v[i]);
        assert(out@ =~= old(out)@ + v@.subrange(from as int, i + 1));
        i += 1;
    }
}

/// Appends the decimal numeral of `n` to `out`.
pub fn push_decimal(out: &mut String, n: u64)
    ensures
        final(out)@ == old(out)@ + decimal(n as nat),
    decreases n,
{
    if n < 10 {
        push_char(out, (n as u8 + 48) as char);
        assert(out@ =~= old(out)@ + decimal(n as nat));
    } else {
        push_decimal(out, n / 10);
        push_char(out, ((n % 10) as u8 + 48) as char);
        assert(out@ =~= old(out)@ + decimal(n as nat));
    }
}

/// Appends the numeral of `n` to `out`, with a minus sign if `n` is negative.
pub fn push_signed(out: &mut String, n: i32)
    ensures
        final(out)@ == old(out)@ + signed_decimal(n as int),
{
    if n < 0 {
        push_char(out, '-');
        let magnitude: u64 = (-(n as i64)) as u64;
        push_decimal(out, magnitude);
        assert(out@ =~= old(out)@ + signed_decimal(n as int));
    } else {
        push_decimal(out, n as u64);
    }
}

/// The number that the digits `v[from..to]` denote, or `None` if it is above
/// `limit`.
pub fn parse_decimal(v: &Vec<char>, from: usize, to: usize, limit: u32) -> (r: Option<u32>)
    requires
        from <= to <= v@.len(),
        all_digits(v@.subrange(from as int, to as int)),
    ensures
        r == if decimal_value(v@.subrange(from as int, to as int)) <= limit {
            Some(decimal_value(v@.subrange(from as int, to as int)) as u32)
        } else {
            None
        },
{
    let mut acc: u64 = 0;
    let mut i = from;
    while i < to
        invariant
            from <= i <= to <= v@.len(),
            all_digits(v@.subrange(from as int, to as int)),
            acc == decimal_value(v@.subrange(from as int, i as int)),
            acc <= limit,
        decreases to - i,
    {
        let ghost whole = v@.subrange(from as int, to as int);
        let ghost next = v@.subrange(from as int, i + 1);
        assert(whole[i - from] == v@[i as int]);
        assert(next.drop_last() =~= v@.subrange(from as int, i as int));
        assert(next.last() == v@[i as int]);
        let d = char_digit_value(v[i]);
        let bigger: u64 = acc * 10 + d as u64;
        if bigger > limit as u64 {
            proof {
                lemma_decimal_value_grows(whole, i + 1 - from);
                assert(whole.take(i + 1 - from) =~= next);
            }
            return None;
        }
        acc = bigger;
        i += 1;
    }
    Some(acc as u32)
}

/// A digit string denotes at least what any of its prefixes denotes.
pub proof fn lemma_decimal_value_grows(s: Seq<char>, k: int)
    requires
        0 <= k <= s.len(),
    ensures
        decimal_value(s.take(k)) <= decimal_value(s),
    decreases s.len() - k,
{
    if k < s.len() {
        lemma_decimal_value_grows(s, k + 1);
        assert(s.take(k + 1).drop_last() =~= s.take(k));
        assert(decimal_value(s.take(k + 1)) == decimal_value(s.take(k)) * 10 + digit_value(
            s.take(k + 1).last(),
        ));
    } else {
        assert(s.take(k) =~= s);
    }
}

/// The numeral of `n` is made of digits and denotes `n`.
pub proof fn lemma_decimal_denotes(n: nat)
    ensures
        decimal(n).len() >= 1,
        all_digits(decimal(n)),
        decimal_value(decimal(n)) == n,
    decreases n,
{
    if n < 10 {
        let s = decimal(n);
        assert(s =~= seq![digit_char(n)]);
        assert(s.drop_last() =~= Seq::<char>::empty());
        assert(decimal_value(s.drop_last()) == 0);
        assert(decimal_value(s) == decimal_value(s.drop_last()) * 10 + digit_value(s.last()));
    } else {
        lemma_decimal_denotes(n / 10);
        let s = decimal(n);
        assert(s == decimal(n / 10).push(digit_char(n % 10)));
        assert(s.drop_last() =~= decimal(n / 10));
        assert(s.last() == digit_char(n % 10));
        assert(decimal_value(s) == decimal_value(s.drop_last()) * 10 + digit_value(s.last()));
        assert forall|i: int| 0 <= i < s.len() implies is_digit(#[trigger] s[i]) by {
            if i < s.len() - 1 {
                assert(s[i] == decimal(n / 10)[i]);
            }
        }
    }
}

/// A run of `len` digits that no digit follows is a digit run of that
/// length.
pub proof fn lemma_digit_run_is(s: Seq<char>, from: int, len: nat)
    requires
        0 <= from,
        from + len <= s.len(),
        forall|i: int| from <= i < from + len ==> is_digit(#[trigger] s[i]),
        from + len < s.len() ==> !is_digit(s[from + len]),
    ensures
        digit_run(s, from) == len,
    decreases len,
{
    if len > 0 {
        lemma_digit_run_is(s, from + 1, (len - 1) as nat);
    }
}

/// `len` elements other than `stop` with `stop` behind them, or the end,
/// are a run of that length.
pub proof fn lemma_run_until_is(s: Seq<char>, from: int, stop: char, len: nat)
    requires
        0 <= from,
        from + len <= s.len(),
        forall|i: int| from <= i < from + len ==> #[trigger] s[i] != stop,
        from + len < s.len() ==> s[from + len] == stop,
    ensures
        run_until(s, from, stop) == len,
    decreases len,
{
    if len > 0 {
        lemma_run_until_is(s, from + 1, stop, (len - 1) as nat);
    }
}

/// `len` characters of a name that no character of a name follows are
/// a name run of that length.
pub proof fn lemma_name_run_is(s: Seq<char>, from: int, len: nat)
    requires
        0 <= from,
        from + len <= s.len(),
        forall|i: int| from <= i < from + len ==> is_name_char(#[trigger] s[i]),
        from + len < s.len() ==> !is_name_char(s[from + len]),
    ensures
        name_run(s, from) == len,
    decreases len,
{
    if len > 0 {
        lemma_name_run_is(s, from + 1, (len - 1) as nat);
    }
}

} // verus!
