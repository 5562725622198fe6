use ogex::engine::ModeFlags;
use ogex::error::{ParseError, RegexError};
use ogex::{compile, transpile, Regex, Replacement};

fn spans(regex: &Regex, input: &str) -> Vec<(usize, usize)> {
    regex.find_all(input).iter().map(|m| (m.start, m.end)).collect()
}

#[test]
fn relative_backref_sees_last_numbered_group() {
    let regex = Regex::new(r"(a)(b)\g{-1}").unwrap();
    let m = regex.find("abb").unwrap();
    assert_eq!((m.start, m.end), (0, 3));
    assert_eq!(m.group(1), Some((0, 1)));
    assert_eq!(m.group(2), Some((1, 2)));
    assert_eq!(m.groups.len(), 2);
    assert_eq!(m.group_str("abb", 1), Some("a"));
    assert_eq!(m.group_str("abb", 2), Some("b"));
    assert!(regex.find("aba").is_none());
}

#[test]
fn named_backref_finds_repeated_word() {
    let regex = Regex::new(r"(name:\w+) is \g{name}").unwrap();
    let input = "John is John and Jane is Jane";
    let m = regex.find(input).unwrap();
    assert_eq!((m.start, m.end), (0, 12));
    assert_eq!(m.named_group("name"), Some((0, 4)));
    assert_eq!(m.named_group_str(input, "name"), Some("John"));
    assert_eq!(m.named_group("other"), None);
    assert_eq!(m.named_groups, vec![("name".to_string(), (0, 4))]);
    assert_eq!(spans(&regex, input), vec![(0, 12), (17, 29)]);
}

#[test]
fn phone_number_matches_once() {
    let regex = Regex::new(r"\d{3}-\d{3}-\d{4}").unwrap();
    let input = "123-456-7890 and 12-345-6789";
    assert_eq!(spans(&regex, input), vec![(0, 12)]);
    assert_eq!(regex.find(input).unwrap().as_str(input), "123-456-7890");
}

#[test]
fn nested_plus_does_not_diverge() {
    let regex = Regex::new("(a+)+").unwrap();
    let m = regex.find("aaa").unwrap();
    assert_eq!((m.start, m.end), (0, 3));
}

#[test]
fn identifier_is_found_behind_digits() {
    let regex = Regex::new(r"[a-zA-Z_][a-zA-Z0-9_]*").unwrap();
    let input = "123invalid";
    let m = regex.find(input).unwrap();
    assert_eq!((m.start, m.end), (3, 10));
    assert_eq!(m.as_str(input), "invalid");
}

#[test]
fn template_swaps_groups_of_a_match() {
    let regex = Regex::new(r"(a)(b)\1").unwrap();
    let input = "abab";
    let m = regex.find(input).unwrap();
    assert_eq!((m.start, m.end), (0, 3));
    let groups = vec![m.group(1).unwrap(), m.group(2).unwrap()];
    let template = Replacement::parse(r"\2-\1").unwrap();
    assert_eq!(template.apply(input, m.start, m.end, &groups), "b-a");
    assert_eq!(transpile("(name:abc)").unwrap(), "(?<name>abc)");
    assert_eq!(compile("(name:abc)").unwrap(), "(?<name>abc)");
}

#[test]
fn leftmost_match_wins() {
    let regex = Regex::new("b+|a").unwrap();
    let m = regex.find("xxabbb").unwrap();
    assert_eq!((m.start, m.end), (2, 3));
    assert!(Regex::new("z").unwrap().find("xxabbb").is_none());
    assert!(!Regex::new("z").unwrap().is_match("xxabbb"));
}

#[test]
fn longest_match_at_the_leftmost_start() {
    let regex = Regex::new("a|ab|abc").unwrap();
    let m = regex.find("zabcd").unwrap();
    assert_eq!((m.start, m.end), (1, 4));
}

#[test]
fn matches_do_not_overlap_and_are_ordered() {
    let regex = Regex::new("aa").unwrap();
    assert_eq!(spans(&regex, "aaaaa"), vec![(0, 2), (2, 4)]);
    let regex = Regex::new(r"\w+").unwrap();
    assert_eq!(spans(&regex, "ab cd  e"), vec![(0, 2), (3, 5), (7, 8)]);
}

#[test]
fn empty_matches_advance_by_one() {
    let regex = Regex::new("a*").unwrap();
    assert_eq!(spans(&regex, "baab"), vec![(0, 0), (1, 3), (3, 3), (4, 4)]);
    let regex = Regex::new("").unwrap();
    assert_eq!(spans(&regex, "ab"), vec![(0, 0), (1, 1), (2, 2)]);
    assert_eq!(spans(&regex, ""), vec![(0, 0)]);
}

#[test]
fn positions_count_codepoints() {
    let regex = Regex::new("l+").unwrap();
    let input = "h\u{e9}llo w\u{f6}rld";
    let m = regex.find(input).unwrap();
    assert_eq!((m.start, m.end), (2, 4));
    assert_eq!(m.as_str(input), "ll");
    assert_eq!(spans(&regex, input), vec![(2, 4), (9, 10)]);
    let regex = Regex::new("(\u{e9}+)x").unwrap();
    let input = "a\u{e9}\u{e9}x";
    let m = regex.find(input).unwrap();
    assert_eq!((m.start, m.end), (1, 4));
    assert_eq!(m.group_str(input, 1), Some("\u{e9}\u{e9}"));
}

#[test]
fn backref_of_growing_capture_reaches_the_longest_match() {
    let regex = Regex::new(r"(a+)\1").unwrap();
    let m = regex.find("aaaaaa").unwrap();
    assert_eq!((m.start, m.end), (0, 6));
    assert_eq!(m.group(1), Some((0, 3)));
    let m = regex.find("aaaaa").unwrap();
    assert_eq!((m.start, m.end), (0, 4));
    assert_eq!(m.group(1), Some((0, 2)));
}

#[test]
fn backref_of_empty_capture_consumes_nothing() {
    let regex = Regex::new(r"(a*)\1").unwrap();
    let m = regex.find("b").unwrap();
    assert_eq!((m.start, m.end), (0, 0));
    assert_eq!(m.group(1), Some((0, 0)));
    let regex = Regex::new(r"(a*)\1c").unwrap();
    let m = regex.find("c").unwrap();
    assert_eq!((m.start, m.end), (0, 1));
}

#[test]
fn backref_to_a_group_that_did_not_capture_fails() {
    assert!(!Regex::new(r"(?:(a)|b)\1").unwrap().is_match("bb"));
    assert!(Regex::new(r"(?:(a)|b)\1").unwrap().is_match("aa"));
    assert!(!Regex::new(r"\1(a)").unwrap().is_match("aa"));
    assert!(!Regex::new(r"\g{0}").unwrap().is_match("anything"));
    assert!(!Regex::new(r"(a)\g{nobody}").unwrap().is_match("aa"));
}

#[test]
fn braced_number_is_a_numeric_backref() {
    let regex = Regex::new(r"(a)(b)\g{2}").unwrap();
    assert!(regex.is_match("abb"));
    assert!(!regex.is_match("aba"));
}

#[test]
fn relative_backref_equals_numeric_without_named_groups() {
    for input in ["abcb", "abca", "abcc", "abc", "abcabc"] {
        let relative = Regex::new(r"(a)(b)(c)\g{-2}").unwrap();
        let numeric = Regex::new(r"(a)(b)(c)\2").unwrap();
        assert_eq!(relative.find(input), numeric.find(input));
    }
    for input in ["abca", "abcb"] {
        let relative = Regex::new(r"(a)(b)(c)\g{-3}").unwrap();
        let numeric = Regex::new(r"(a)(b)(c)\1").unwrap();
        assert_eq!(relative.find(input), numeric.find(input));
    }
    assert!(!Regex::new(r"(a)\g{-2}").unwrap().is_match("aa"));
}

#[test]
fn relative_backref_counts_every_numbered_group_of_the_pattern() {
    let regex = Regex::new(r"(a)\g{-1}(b)").unwrap();
    assert!(!regex.is_match("aab"));
    let regex = Regex::new(r"(a)\g{-2}(b)").unwrap();
    assert!(regex.is_match("aab"));
}

#[test]
fn counted_quantifiers_count() {
    let zero = Regex::new("a{0}").unwrap();
    assert_eq!(spans(&zero, "aa"), vec![(0, 0), (1, 1), (2, 2)]);
    let three = Regex::new("a{3}").unwrap();
    assert_eq!(spans(&three, "aaaaaaa"), vec![(0, 3), (3, 6)]);
    assert!(!three.is_match("aa"));
    let range = Regex::new("a{2,4}").unwrap();
    assert_eq!(spans(&range, "a aa aaa aaaa aaaaa"), vec![(2, 4), (5, 8), (9, 13), (14, 18)]);
    let open = Regex::new("a{2,}").unwrap();
    assert_eq!(spans(&open, "a aa aaaaa"), vec![(2, 4), (5, 10)]);
    let same = Regex::new("a{2,2}").unwrap();
    assert_eq!(spans(&same, "aaaaa"), vec![(0, 2), (2, 4)]);
    let none_up = Regex::new("xa{0,2}").unwrap();
    assert_eq!(spans(&none_up, "x xa xaaa"), vec![(0, 1), (2, 4), (5, 8)]);
}

#[test]
fn lazy_and_greedy_agree_on_the_span() {
    for (greedy, lazy) in [("a*", "a*?"), ("a+", "a+?"), ("a{2,}", "a{2,}?"), ("a{1,3}", "a{1,3}?")] {
        let g = Regex::new(greedy).unwrap();
        let l = Regex::new(lazy).unwrap();
        for input in ["", "a", "aa", "baaaa", "aaab"] {
            let gs = spans(&g, input);
            let ls = spans(&l, input);
            assert_eq!(gs, ls);
        }
    }
}

#[test]
fn group_in_a_counted_quantifier_keeps_its_index() {
    let regex = Regex::new(r"(a|b){3}(c)").unwrap();
    let m = regex.find("abbc").unwrap();
    assert_eq!((m.start, m.end), (0, 4));
    assert_eq!(m.group(1), Some((2, 3)));
    assert_eq!(m.group(2), Some((3, 4)));
    assert_eq!(m.groups.len(), 2);
    let regex = Regex::new(r"(a){0}(b)\2").unwrap();
    let m = regex.find("bb").unwrap();
    assert_eq!(m.group(1), None);
    assert_eq!(m.group(2), Some((0, 1)));
}

#[test]
fn groups_that_were_not_entered_are_absent() {
    let regex = Regex::new("(a)|(b)").unwrap();
    let m = regex.find("b").unwrap();
    assert_eq!(m.group(1), None);
    assert_eq!(m.group(2), Some((0, 1)));
    let m = regex.find("a").unwrap();
    assert_eq!(m.group(1), Some((0, 1)));
    assert_eq!(m.group(2), None);
}

#[test]
fn anchors_and_boundaries() {
    assert_eq!(spans(&Regex::new("^a").unwrap(), "aa\na"), vec![(0, 1)]);
    assert_eq!(spans(&Regex::new("a$").unwrap(), "a\naa"), vec![(3, 4)]);
    assert_eq!(spans(&Regex::new(r"\bab\b").unwrap(), "ab cab ab_ ab"), vec![(0, 2), (11, 13)]);
    assert_eq!(spans(&Regex::new(r"\Ba").unwrap(), "a ba a"), vec![(3, 4)]);
    assert_eq!(spans(&Regex::new("^$").unwrap(), ""), vec![(0, 0)]);
    assert!(!Regex::new("^$").unwrap().is_match("a"));
}

#[test]
fn modes_change_what_matches() {
    let multiline = ModeFlags::from_string("m");
    assert_eq!(spans(&Regex::with_flags("^a", multiline).unwrap(), "aa\na"), vec![(0, 1), (3, 4)]);
    assert_eq!(spans(&Regex::with_flags("a$", multiline).unwrap(), "a\naa"), vec![(0, 1), (3, 4)]);
    let insensitive = ModeFlags::from_string("i");
    assert_eq!(spans(&Regex::with_flags("ab", insensitive).unwrap(), "AB aB xb"), vec![(0, 2), (3, 5)]);
    assert_eq!(spans(&Regex::with_flags("[a-c]+", insensitive).unwrap(), "xAbCd"), vec![(1, 4)]);
    assert_eq!(spans(&Regex::new("[a-c]+").unwrap(), "xAbCd"), vec![(2, 3)]);
    let dotall = ModeFlags::from_string("s");
    assert_eq!(spans(&Regex::new("a.b").unwrap(), "a\nb a-b"), vec![(4, 7)]);
    assert_eq!(spans(&Regex::with_flags("a.b", dotall).unwrap(), "a\nb a-b"), vec![(0, 3), (4, 7)]);
}

#[test]
fn mode_flags_read_letters_and_merge() {
    let flags = ModeFlags::from_string("imsx");
    assert!(flags.case_insensitive && flags.multiline && flags.dotall && flags.extended);
    let flags = ModeFlags::from_string("zq");
    assert!(!flags.case_insensitive && !flags.multiline && !flags.dotall && !flags.extended);
    let mut flags = ModeFlags::from_string("i");
    flags.merge(&ModeFlags::from_string("s"));
    assert!(flags.case_insensitive && !flags.multiline && flags.dotall && !flags.extended);
    let plain = ModeFlags::default();
    assert!(!plain.case_insensitive && !plain.multiline && !plain.dotall && !plain.extended);
}

#[test]
fn shorthands_in_classes() {
    assert_eq!(spans(&Regex::new(r"[\d_]+").unwrap(), "ab12_3 c"), vec![(2, 6)]);
    assert_eq!(spans(&Regex::new(r"[^\s]+").unwrap(), " ab  c"), vec![(1, 3), (5, 6)]);
    assert_eq!(spans(&Regex::new(r"[a-]+").unwrap(), "b-a-b"), vec![(1, 4)]);
    assert_eq!(spans(&Regex::new(r"[z-a]+").unwrap(), "b-za"), vec![(1, 4)]);
}

#[test]
fn compile_errors_name_what_is_wrong() {
    let unclosed = Regex::new("(a").err().unwrap();
    assert_eq!(
        unclosed,
        RegexError::Parse(ParseError::UnexpectedToken {
            expected: "RightParen".to_string(),
            found: "EOF".to_string(),
        })
    );
    assert_eq!(unclosed.to_string(), "parse error: expected RightParen, found EOF");
    assert_eq!(Regex::new("a|*").err().unwrap().to_string(), "parse error: expected expression, found `*`");
    assert_eq!(Regex::new("a)").err().unwrap().to_string(), "parse error: expected EOF, found `)`");
    assert_eq!(Regex::new("[").err().unwrap().to_string(), "parse error: expected character class item, found EOF");
    assert_eq!(Regex::new("[a").err().unwrap().to_string(), "parse error: expected RightBracket, found EOF");
    assert_eq!(Regex::new("[a.]").err().unwrap().to_string(), "parse error: expected character or escape, found `.`");
    assert_eq!(Regex::new("a{x}").err().unwrap().to_string(), "parse error: expected number, found literal `x`");
    assert_eq!(Regex::new("a{2").err().unwrap().to_string(), "parse error: expected RightBrace, found EOF");
    assert_eq!(Regex::new("a{5,2}").err().unwrap(), RegexError::Parse(ParseError::InvalidQuantifier("{5,2}".to_string())));
    assert_eq!(Regex::new("a{5,2}").err().unwrap().to_string(), "parse error: invalid quantifier: {5,2}");
    assert_eq!(
        Regex::new("a{4294967296}").err().unwrap(),
        RegexError::Parse(ParseError::InvalidQuantifier("count too large".to_string()))
    );
    assert_eq!(
        Regex::new("(x:a)(x:b)").err().unwrap(),
        RegexError::Parse(ParseError::DuplicateGroupName("x".to_string()))
    );
    assert_eq!(Regex::new("(x:a)(x:b)").err().unwrap().to_string(), "parse error: duplicate group name 'x'");
    assert!(Regex::new("a{3}?").is_err());
    assert!(Regex::new("a{3,}?").is_ok());
}

#[test]
fn nested_named_group_in_a_group_parses() {
    let regex = Regex::new("((x:a))b").unwrap();
    let m = regex.find("ab").unwrap();
    assert_eq!(m.group(1), Some((0, 1)));
    assert_eq!(m.group(2), Some((0, 1)));
    assert_eq!(m.named_group("x"), Some((0, 1)));
    assert_eq!(transpile("((x:a))b").unwrap(), "((?<x>a))b");
}

#[test]
fn names_may_hold_letters_of_any_script() {
    let regex = Regex::new("(\u{e9}t\u{e9}_1:a+)").unwrap();
    let m = regex.find("baa").unwrap();
    assert_eq!(m.named_group("\u{e9}t\u{e9}_1"), Some((1, 3)));
    assert!(transpile("(1x:a)").is_err());
    assert_eq!(transpile("(x1:a)").unwrap(), "(?<x1>a)");
}

#[test]
fn one_thread_per_state_decides_what_a_backref_sees() {
    assert!(Regex::new(r"(?:(a)|(a))\1").unwrap().is_match("aa"));
    assert!(Regex::new(r"(?:(a)|(a))\2").unwrap().find("aa").is_none());
    let lazy = Regex::new(r"(a*?)(a*)\1").unwrap();
    let greedy = Regex::new(r"(a*)(a*)\1").unwrap();
    assert_eq!(spans(&lazy, "a"), vec![(0, 1), (1, 1)]);
    assert_eq!(spans(&greedy, "a"), vec![(0, 0), (1, 1)]);
}

#[test]
fn a_range_matches_what_its_best_count_matches() {
    for (body, n, m) in [("a", 0u32, 2u32), ("ab|a", 1, 3), ("[ab]c?", 0, 3), ("(a|b)", 2, 3)] {
        for lazy in ["", "?"] {
            let range = Regex::new(&format!("^(?:{}){{{},{}}}{}", body, n, m, lazy)).unwrap();
            for input in ["", "a", "ab", "aab", "abab", "acbcab", "bbbb", "c"] {
                let mut best: Option<usize> = None;
                for k in n..=m {
                    let count = Regex::new(&format!("^(?:{}){{{}}}", body, k)).unwrap();
                    if let Some(found) = count.find(input) {
                        best = Some(best.map_or(found.end, |b| b.max(found.end)));
                    }
                }
                assert_eq!(range.find(input).map(|found| found.end), best);
            }
        }
    }
}

#[test]
fn a_count_with_groups_matches_like_the_row_of_copies() {
    for (counted, written) in [("(a|bc){2}", "(a|bc)(a|bc)"), ("(?:(a+)b?){3}", "(?:(a+)b?)(?:(a+)b?)(?:(a+)b?)")] {
        let one = Regex::new(counted).unwrap();
        let other = Regex::new(written).unwrap();
        for input in ["abca", "bcbc", "aaba", "abaab", "xaabaaay", ""] {
            assert_eq!(spans(&one, input), spans(&other, input), "{counted} on {input:?}");
        }
    }
}

#[test]
fn a_counted_group_shares_its_index_among_the_copies() {
    let counted = Regex::new(r"((.)\2){2}").unwrap();
    let m = counted.find("aabb").unwrap();
    assert_eq!((m.start, m.end), (0, 4));
    assert_eq!(m.group(2), Some((2, 3)));
    assert_eq!(m.groups.len(), 2);
    let written = Regex::new(r"(.)\1(.)\1").unwrap();
    assert!(written.find("aabb").is_none());
    assert!(written.is_match("aaba"));
}

#[test]
fn spans_lie_within_the_match_and_belong_to_declared_groups() {
    for (pattern, groups) in [(r"x(a)(b)?(c:c+)\1", 3u32), (r"(?:(a)|(b))+", 2), (r"((a)|b){2,3}(x)?", 3)] {
        let regex = Regex::new(pattern).unwrap();
        for input in ["xabcca", "zzxacaxa", "abba", "abbabx", "bbb", ""] {
            for m in regex.find_all(input) {
                assert!(m.start <= m.end && m.end <= input.chars().count());
                for (&k, &(s, e)) in &m.groups {
                    assert!(1 <= k && k <= groups, "{pattern} on {input:?}");
                    assert!(m.start <= s && s <= e && e <= m.end, "{pattern} on {input:?}");
                }
            }
        }
    }
}

#[test]
fn nested_plus_finds_every_run_whole() {
    let regex = Regex::new("(a+)+").unwrap();
    let mut input = String::new();
    for n in 1..=64usize {
        input.push('a');
        assert!(regex.is_match(&input));
        let m = regex.find(&input).unwrap();
        assert_eq!((m.start, m.end), (0, n));
    }
    assert!(!regex.is_match(""));
    assert!(!regex.is_match("bbb"));
}
