use ogex::ast::{Expr, Quantifier};
use ogex::parser::parse;

#[test]
fn parser_test_parse_literal() {
    let expr = parse("abc").unwrap();
    assert_eq!(expr.to_regex_string(), "abc");
}

#[test]
fn test_parse_named_group() {
    let expr = parse("(name:abc)").unwrap();
    assert_eq!(expr.to_regex_string(), "(?<name>abc)");
}

#[test]
fn test_parse_empty() {
    let expr = parse("").unwrap();
    assert_eq!(expr.to_regex_string(), "");
}

#[test]
fn test_parse_nested_group() {
    let expr = parse("(outer:(inner:abc))").unwrap();
    assert_eq!(expr.to_regex_string(), "(?<outer>(?<inner>abc))");
}

#[test]
fn test_parse_error_unclosed_group() {
    let result = parse("(name:abc");
    assert!(result.is_err());
}

#[test]
fn test_parse_simple_parens() {
    // (abc) - capturing group
    let expr = parse("(abc)").unwrap();
    assert_eq!(expr.to_regex_string(), "(abc)");
}

#[test]
fn test_parse_quantifier_star() {
    let expr = parse("a*").unwrap();
    assert_eq!(expr.to_regex_string(), "a*");
    assert!(matches!(
        expr,
        Expr::Quantified {
            quantifier: Quantifier::ZeroOrMore,
            ..
        }
    ));
}

#[test]
fn test_parse_quantifier_plus() {
    let expr = parse("a+").unwrap();
    assert_eq!(expr.to_regex_string(), "a+");
}

#[test]
fn test_parse_quantifier_optional() {
    let expr = parse("a?").unwrap();
    assert_eq!(expr.to_regex_string(), "a?");
}

#[test]
fn test_parse_quantifier_exact() {
    let expr = parse("a{3}").unwrap();
    assert_eq!(expr.to_regex_string(), "a{3}");
}

#[test]
fn test_parse_quantifier_between() {
    let expr = parse("a{2,5}").unwrap();
    assert_eq!(expr.to_regex_string(), "a{2,5}");
}

#[test]
fn test_parse_quantifier_at_least() {
    let expr = parse("a{3,}").unwrap();
    assert_eq!(expr.to_regex_string(), "a{3,}");
}

#[test]
fn test_parse_alternation() {
    let expr = parse("a|b|c").unwrap();
    assert_eq!(expr.to_regex_string(), "a|b|c");
    assert!(matches!(expr, Expr::Alternation(_)));
}

#[test]
fn test_parse_anchors() {
    let expr = parse("^start$").unwrap();
    assert_eq!(expr.to_regex_string(), "^start$");
}

#[test]
fn test_parse_dot() {
    let expr = parse("a.b").unwrap();
    assert_eq!(expr.to_regex_string(), "a.b");
}

#[test]
fn test_parse_non_capturing_group() {
    let expr = parse("(?:abc)").unwrap();
    assert_eq!(expr.to_regex_string(), "(?:abc)");
}

#[test]
fn test_parse_backreference_number() {
    let expr = parse(r"\1").unwrap();
    assert_eq!(expr.to_regex_string(), "\\1");
}

#[test]
fn test_parse_backreference_relative() {
    let expr = parse(r"\g{-1}").unwrap();
    assert_eq!(expr.to_regex_string(), "\\g{-1}");
}

#[test]
fn test_parse_backreference_name() {
    let expr = parse(r"\g{name}").unwrap();
    assert_eq!(expr.to_regex_string(), "\\g{name}");
}

#[test]
fn test_parse_character_class() {
    let expr = parse("[abc]").unwrap();
    assert_eq!(expr.to_regex_string(), "[abc]");
}

#[test]
fn test_parse_character_class_negated() {
    let expr = parse("[^abc]").unwrap();
    assert_eq!(expr.to_regex_string(), "[^abc]");
}

#[test]
fn test_parse_character_class_range() {
    let expr = parse("[a-z]").unwrap();
    assert_eq!(expr.to_regex_string(), "[a-z]");
}

#[test]
fn test_parse_complex_pattern() {
    // Test a more complex pattern with multiple features
    let expr = parse("^(name:[a-z]+)@(domain:[a-z]+)$").unwrap();
    assert_eq!(
        expr.to_regex_string(),
        "^(?<name>[a-z]+)@(?<domain>[a-z]+)$"
    );
}
