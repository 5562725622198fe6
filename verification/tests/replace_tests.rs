use ogex::replace::{Replacement, ReplacementPart};

#[test]
fn replace_test_parse_literal() {
    let repl = Replacement::parse("hello").unwrap();
    assert_eq!(repl.parts().len(), 1);
    assert!(matches!(&repl.parts()[0], ReplacementPart::Literal(s) if s == "hello"));
}

#[test]
fn replace_test_parse_backref_number() {
    let repl = Replacement::parse("\\1").unwrap();
    assert_eq!(repl.parts().len(), 1);
    assert!(matches!(&repl.parts()[0], ReplacementPart::BackrefNumber(1)));
}

#[test]
fn replace_test_parse_backref_name() {
    let repl = Replacement::parse("\\g{name}").unwrap();
    assert_eq!(repl.parts().len(), 1);
    assert!(matches!(&repl.parts()[0], ReplacementPart::BackrefName(s) if s == "name"));
}

#[test]
fn replace_test_parse_entire_match() {
    let repl = Replacement::parse("\\g{0}").unwrap();
    assert_eq!(repl.parts().len(), 1);
    assert!(matches!(&repl.parts()[0], ReplacementPart::EntireMatch));
}

#[test]
fn test_parse_entire_match_g() {
    // \G is the preferred syntax for entire match
    let repl = Replacement::parse("\\G").unwrap();
    assert_eq!(repl.parts().len(), 1);
    assert!(matches!(&repl.parts()[0], ReplacementPart::EntireMatch));
}

#[test]
fn test_parse_mixed_with_g() {
    let repl = Replacement::parse("prefix\\Gsuffix").unwrap();
    assert_eq!(repl.parts().len(), 3);
    assert!(matches!(&repl.parts()[0], ReplacementPart::Literal(s) if s == "prefix"));
    assert!(matches!(&repl.parts()[1], ReplacementPart::EntireMatch));
    assert!(matches!(&repl.parts()[2], ReplacementPart::Literal(s) if s == "suffix"));
}

#[test]
fn replace_test_parse_mixed() {
    let repl = Replacement::parse("prefix\\1suffix").unwrap();
    assert_eq!(repl.parts().len(), 3);
    assert!(matches!(&repl.parts()[0], ReplacementPart::Literal(s) if s == "prefix"));
    assert!(matches!(&repl.parts()[1], ReplacementPart::BackrefNumber(1)));
    assert!(matches!(&repl.parts()[2], ReplacementPart::Literal(s) if s == "suffix"));
}

#[test]
fn replace_test_apply_literal() {
    let repl = Replacement::parse("replacement").unwrap();
    let result = repl.apply("original", 0, 8, &[]);
    assert_eq!(result, "replacement");
}

#[test]
fn replace_test_apply_backref() {
    let repl = Replacement::parse("\\1").unwrap();
    // Match "abc" at position 0-3, group 1 is "b" at 1-2
    let result = repl.apply("abc", 0, 3, &[(1, 2)]);
    assert_eq!(result, "b");
}

#[test]
fn replace_test_apply_entire_match() {
    let repl = Replacement::parse("\\g{0}").unwrap();
    let result = repl.apply("hello world", 0, 5, &[]);
    assert_eq!(result, "hello");
}

#[test]
fn test_apply_entire_match_g() {
    // \G should work the same as \g{0}
    let repl = Replacement::parse("\\G").unwrap();
    let result = repl.apply("hello world", 0, 5, &[]);
    assert_eq!(result, "hello");
}

#[test]
fn test_apply_entire_match_with_brackets() {
    let repl = Replacement::parse("[\\G]").unwrap();
    let result = repl.apply("hello world", 0, 5, &[]);
    assert_eq!(result, "[hello]");
}

#[test]
fn replace_test_apply_mixed() {
    let repl = Replacement::parse("[\\1]").unwrap();
    let result = repl.apply("abc", 0, 3, &[(1, 2)]);
    assert_eq!(result, "[b]");
}

#[test]
fn replace_test_apply_multiple_groups() {
    let repl = Replacement::parse(r"\2-\1").unwrap();
    // Groups: 1="a" (0,1), 2="b" (1,2)
    let result = repl.apply("ab", 0, 2, &[(0, 1), (1, 2)]);
    assert_eq!(result, "b-a");
}

#[test]
fn replace_test_escape_sequences() {
    // \\n becomes literal 'n', \\t becomes literal 't' (not newline/tab)
    let repl = Replacement::parse("\\n\\t").unwrap();
    assert_eq!(repl.parts().len(), 1);
    assert!(matches!(&repl.parts()[0], ReplacementPart::Literal(s) if s == "nt"));
}

#[test]
fn test_apply_named_backref() {
    let repl = Replacement::parse("\\g{name}").unwrap();

    // Create named groups mapping: "name" -> group 1
    let mut named: Vec<(String, u32)> = Vec::new();
    named.push(("name".to_string(), 1));

    // Match "hello world", group 1 is "hello" at 0-5
    let result = repl.apply_with_names("hello world", 0, 11, &[(0, 5)], &named);
    assert_eq!(result, "hello");
}

#[test]
fn test_apply_named_backref_with_literal() {
    let repl = Replacement::parse("result: \\g{name}!").unwrap();

    let mut named: Vec<(String, u32)> = Vec::new();
    named.push(("name".to_string(), 1));

    // Match "hello", group 1 is "hello"
    let result = repl.apply_with_names("hello", 0, 5, &[(0, 5)], &named);
    assert_eq!(result, "result: hello!");
}

#[test]
fn test_apply_mixed_named_and_numbered() {
    let repl = Replacement::parse(r"\g{name}-\1-\G").unwrap();

    let mut named: Vec<(String, u32)> = Vec::new();
    named.push(("name".to_string(), 2)); // "name" is group 2

    // Groups: 1="a" (0,1), 2="b" (1,2)
    // Match "ab" at 0-2
    let result = repl.apply_with_names("ab", 0, 2, &[(0, 1), (1, 2)], &named);
    assert_eq!(result, "b-a-ab");
}

#[test]
fn test_apply_missing_named_backref() {
    let repl = Replacement::parse("\\g{missing}").unwrap();

    let named: Vec<(String, u32)> = Vec::new(); // No named groups

    // Should replace with empty string
    let result = repl.apply_with_names("hello", 0, 5, &[], &named);
    assert_eq!(result, "");
}

#[test]
fn test_parse_literal() {
    let repl = Replacement::parse("hello").unwrap();
    assert_eq!(repl.parts().len(), 1);
    assert!(matches!(&repl.parts()[0], ReplacementPart::Literal(s) if s == "hello"));
}

#[test]
fn test_parse_backref_number() {
    let repl = Replacement::parse("\\1").unwrap();
    assert_eq!(repl.parts().len(), 1);
    assert!(matches!(&repl.parts()[0], ReplacementPart::BackrefNumber(1)));
}

#[test]
fn test_parse_backref_name() {
    let repl = Replacement::parse("\\g{name}").unwrap();
    assert_eq!(repl.parts().len(), 1);
    assert!(matches!(&repl.parts()[0], ReplacementPart::BackrefName(s) if s == "name"));
}

#[test]
fn test_parse_entire_match() {
    let repl = Replacement::parse("\\g{0}").unwrap();
    assert_eq!(repl.parts().len(), 1);
    assert!(matches!(&repl.parts()[0], ReplacementPart::EntireMatch));
}

#[test]
fn test_parse_mixed() {
    let repl = Replacement::parse("prefix\\1suffix").unwrap();
    assert_eq!(repl.parts().len(), 3);
    assert!(matches!(&repl.parts()[0], ReplacementPart::Literal(s) if s == "prefix"));
    assert!(matches!(&repl.parts()[1], ReplacementPart::BackrefNumber(1)));
    assert!(matches!(&repl.parts()[2], ReplacementPart::Literal(s) if s == "suffix"));
}

#[test]
fn test_apply_literal() {
    let repl = Replacement::parse("replacement").unwrap();
    let result = repl.apply("original", 0, 8, &[]);
    assert_eq!(result, "replacement");
}

#[test]
fn test_apply_backref() {
    let repl = Replacement::parse("\\1").unwrap();
    // Match "abc" at position 0-3, group 1 is "b" at 1-2
    let result = repl.apply("abc", 0, 3, &[(1, 2)]);
    assert_eq!(result, "b");
}

#[test]
fn test_apply_entire_match() {
    let repl = Replacement::parse("\\g{0}").unwrap();
    let result = repl.apply("hello world", 0, 5, &[]);
    assert_eq!(result, "hello");
}

#[test]
fn test_apply_mixed() {
    let repl = Replacement::parse("[\\1]").unwrap();
    let result = repl.apply("abc", 0, 3, &[(1, 2)]);
    assert_eq!(result, "[b]");
}

#[test]
fn test_apply_multiple_groups() {
    let repl = Replacement::parse(r"\2-\1").unwrap();
    // Groups: 1="a" (0,1), 2="b" (1,2)
    let result = repl.apply("ab", 0, 2, &[(0, 1), (1, 2)]);
    assert_eq!(result, "b-a");
}

#[test]
fn test_escape_sequences() {
    // \\n becomes literal 'n', \\t becomes literal 't' (not newline/tab)
    let repl = Replacement::parse("\\n\\t").unwrap();
    assert_eq!(repl.parts().len(), 1);
    assert!(matches!(&repl.parts()[0], ReplacementPart::Literal(s) if s == "nt"));
}
