use ogex::ast::{ClassItem, Expr, Quantifier};

#[test]
fn test_empty() {
    let expr = Expr::empty();
    assert_eq!(expr.to_regex_string(), "");
}

#[test]
fn test_literal() {
    let expr = Expr::literal('a');
    assert_eq!(expr.to_regex_string(), "a");
}

#[test]
fn test_any() {
    let expr = Expr::any();
    assert_eq!(expr.to_regex_string(), ".");
}

#[test]
fn test_sequence() {
    let expr = Expr::sequence(vec![
        Expr::literal('a'),
        Expr::literal('b'),
        Expr::literal('c'),
    ]);
    assert_eq!(expr.to_regex_string(), "abc");
}

#[test]
fn ast_test_alternation() {
    let expr = Expr::alternation(vec![
        Expr::literal('a'),
        Expr::literal('b'),
        Expr::literal('c'),
    ]);
    assert_eq!(expr.to_regex_string(), "a|b|c");
}

#[test]
fn ast_test_character_class() {
    let expr = Expr::char_class(
        false,
        vec![
            ClassItem::Char('a'),
            ClassItem::Char('b'),
            ClassItem::Char('c'),
        ],
    );
    assert_eq!(expr.to_regex_string(), "[abc]");
}

#[test]
fn test_character_class_negated() {
    let expr = Expr::char_class(true, vec![ClassItem::Char('a'), ClassItem::Char('b')]);
    assert_eq!(expr.to_regex_string(), "[^ab]");
}

#[test]
fn test_character_class_range() {
    let expr = Expr::char_class(
        false,
        vec![ClassItem::Range('a', 'z'), ClassItem::Range('0', '9')],
    );
    assert_eq!(expr.to_regex_string(), "[a-z0-9]");
}

#[test]
fn test_quantifier_zero_or_more() {
    let expr = Expr::quantified(Expr::literal('a'), Quantifier::ZeroOrMore);
    assert_eq!(expr.to_regex_string(), "a*");
}

#[test]
fn test_quantifier_one_or_more() {
    let expr = Expr::quantified(Expr::literal('a'), Quantifier::OneOrMore);
    assert_eq!(expr.to_regex_string(), "a+");
}

#[test]
fn test_quantifier_optional() {
    let expr = Expr::quantified(Expr::literal('a'), Quantifier::Optional);
    assert_eq!(expr.to_regex_string(), "a?");
}

#[test]
fn test_group() {
    let expr = Expr::group(Expr::sequence(vec![Expr::literal('a'), Expr::literal('b')]));
    assert_eq!(expr.to_regex_string(), "(ab)");
}

#[test]
fn ast_test_non_capturing_group() {
    let expr = Expr::non_capturing_group(Expr::literal('a'));
    assert_eq!(expr.to_regex_string(), "(?:a)");
}

#[test]
fn ast_test_named_group() {
    let expr = Expr::named_group(
        "name",
        Expr::sequence(vec![Expr::literal('a'), Expr::literal('b')]),
    );
    assert_eq!(expr.to_regex_string(), "(?<name>ab)");
}

#[test]
fn test_start_anchor() {
    let expr = Expr::start_anchor();
    assert_eq!(expr.to_regex_string(), "^");
}

#[test]
fn test_end_anchor() {
    let expr = Expr::end_anchor();
    assert_eq!(expr.to_regex_string(), "$");
}

#[test]
fn test_backreference() {
    let expr = Expr::backreference(1);
    assert_eq!(expr.to_regex_string(), "\\1");
}

#[test]
fn ast_test_relative_backreference() {
    let expr = Expr::relative_backreference(-1);
    assert_eq!(expr.to_regex_string(), "\\g{-1}");
}

#[test]
fn ast_test_named_backreference() {
    let expr = Expr::named_backreference("name");
    assert_eq!(expr.to_regex_string(), "\\g{name}");
}

#[test]
fn test_lookahead() {
    let expr = Expr::Lookahead(Box::new(Expr::literal('a')));
    assert_eq!(expr.to_regex_string(), "(@>:a)");
}

#[test]
fn test_negative_lookahead() {
    let expr = Expr::NegativeLookahead(Box::new(Expr::literal('a')));
    assert_eq!(expr.to_regex_string(), "(@>~:a)");
}

#[test]
fn test_lookbehind() {
    let expr = Expr::Lookbehind(Box::new(Expr::literal('a')));
    assert_eq!(expr.to_regex_string(), "(@<:a)");
}

#[test]
fn test_negative_lookbehind() {
    let expr = Expr::NegativeLookbehind(Box::new(Expr::literal('a')));
    assert_eq!(expr.to_regex_string(), "(@<~:a)");
}

#[test]
fn test_atomic_group() {
    let expr = Expr::AtomicGroup(Box::new(Expr::literal('a')));
    assert_eq!(expr.to_regex_string(), "(@*:a)");
}

#[test]
fn test_conditional_group() {
    let expr = Expr::ConditionalGroup(Box::new(Expr::literal('a')));
    assert_eq!(expr.to_regex_string(), "(@%:a)");
}
