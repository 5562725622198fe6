use ogex::lexer::{Lexer, Token};

#[test]
fn test_simple_named_group() {
    let mut lexer = Lexer::new("(name:abc)");
    let tokens = lexer.tokenize();

    assert_eq!(
        tokens,
        vec![
            Token::NamedGroupStart("name".to_string()),
            Token::Literal('a'),
            Token::Literal('b'),
            Token::Literal('c'),
            Token::RightParen,
            Token::Eof,
        ]
    );
}

#[test]
fn test_literal_sequence() {
    let mut lexer = Lexer::new("abc");
    let tokens = lexer.tokenize();

    assert_eq!(
        tokens,
        vec![
            Token::Literal('a'),
            Token::Literal('b'),
            Token::Literal('c'),
            Token::Eof,
        ]
    );
}

#[test]
fn lexer_test_empty_input() {
    let mut lexer = Lexer::new("");
    let tokens = lexer.tokenize();

    assert_eq!(tokens, vec![Token::Eof]);
}

#[test]
fn test_parentheses_only() {
    let mut lexer = Lexer::new("()");
    let tokens = lexer.tokenize();

    assert_eq!(
        tokens,
        vec![Token::LeftParen, Token::RightParen, Token::Eof,]
    );
}

#[test]
fn test_named_group_with_underscore() {
    let mut lexer = Lexer::new("(my_name:test)");
    let tokens = lexer.tokenize();

    assert_eq!(tokens[0], Token::NamedGroupStart("my_name".to_string()));
}

#[test]
fn lexer_test_quantifiers() {
    let mut lexer = Lexer::new("a*b+c?");
    let tokens = lexer.tokenize();

    assert_eq!(
        tokens,
        vec![
            Token::Literal('a'),
            Token::Star,
            Token::Literal('b'),
            Token::Plus,
            Token::Literal('c'),
            Token::Question,
            Token::Eof,
        ]
    );
}

#[test]
fn lexer_test_alternation() {
    let mut lexer = Lexer::new("a|b|c");
    let tokens = lexer.tokenize();

    assert_eq!(
        tokens,
        vec![
            Token::Literal('a'),
            Token::Pipe,
            Token::Literal('b'),
            Token::Pipe,
            Token::Literal('c'),
            Token::Eof,
        ]
    );
}

#[test]
fn lexer_test_anchors() {
    let mut lexer = Lexer::new("^start$");
    let tokens = lexer.tokenize();

    assert_eq!(
        tokens,
        vec![
            Token::Caret,
            Token::Literal('s'),
            Token::Literal('t'),
            Token::Literal('a'),
            Token::Literal('r'),
            Token::Literal('t'),
            Token::Dollar,
            Token::Eof,
        ]
    );
}

#[test]
fn lexer_test_character_class() {
    let mut lexer = Lexer::new("[abc]");
    let tokens = lexer.tokenize();

    assert_eq!(
        tokens,
        vec![
            Token::LeftBracket,
            Token::Literal('a'),
            Token::Literal('b'),
            Token::Literal('c'),
            Token::RightBracket,
            Token::Eof,
        ]
    );
}

#[test]
fn lexer_test_escape_sequences() {
    let mut lexer = Lexer::new(r"\n\t\\");
    let tokens = lexer.tokenize();

    assert_eq!(
        tokens,
        vec![
            Token::Escape('n'),
            Token::Escape('t'),
            Token::Escape('\\'),
            Token::Eof,
        ]
    );
}

#[test]
fn test_backreference_number() {
    let mut lexer = Lexer::new(r"\1\2\12");
    let tokens = lexer.tokenize();

    assert_eq!(
        tokens,
        vec![
            Token::BackrefNumber(1),
            Token::BackrefNumber(2),
            Token::BackrefNumber(12),
            Token::Eof,
        ]
    );
}

#[test]
fn test_backreference_name() {
    let mut lexer = Lexer::new(r"\g{name}");
    let tokens = lexer.tokenize();

    assert_eq!(
        tokens,
        vec![Token::BackrefName("name".to_string()), Token::Eof,]
    );
}

#[test]
fn lexer_test_non_capturing_group() {
    let mut lexer = Lexer::new("(?:abc)");
    let tokens = lexer.tokenize();

    assert_eq!(
        tokens,
        vec![
            Token::NonCapturing,
            Token::Literal('a'),
            Token::Literal('b'),
            Token::Literal('c'),
            Token::RightParen,
            Token::Eof,
        ]
    );
}

#[test]
fn test_dot() {
    let mut lexer = Lexer::new("a.b");
    let tokens = lexer.tokenize();

    assert_eq!(
        tokens,
        vec![
            Token::Literal('a'),
            Token::Dot,
            Token::Literal('b'),
            Token::Eof,
        ]
    );
}

#[test]
fn test_quantifier_braces() {
    let mut lexer = Lexer::new("a{3,5}");
    let tokens = lexer.tokenize();

    assert_eq!(
        tokens,
        vec![
            Token::Literal('a'),
            Token::LeftBrace,
            Token::Literal('3'),
            Token::Comma,
            Token::Literal('5'),
            Token::RightBrace,
            Token::Eof,
        ]
    );
}

#[test]
fn test_backref_relative() {
    // \g{-1} - relative backreference to last numbered group
    let mut lexer = Lexer::new(r"\g{-1}");
    let tokens = lexer.tokenize();

    assert_eq!(tokens, vec![Token::BackrefRelative(-1), Token::Eof,]);
}

#[test]
fn test_backref_relative_large() {
    // \g{-27} - relative backreference
    let mut lexer = Lexer::new(r"\g{-27}");
    let tokens = lexer.tokenize();

    assert_eq!(tokens, vec![Token::BackrefRelative(-27), Token::Eof,]);
}

#[test]
fn test_backref_relative_in_pattern() {
    // Pattern with relative backreference
    let mut lexer = Lexer::new(r"(a)(b)\g{-1}");
    let tokens = lexer.tokenize();

    assert_eq!(
        tokens,
        vec![
            Token::LeftParen,
            Token::Literal('a'),
            Token::RightParen,
            Token::LeftParen,
            Token::Literal('b'),
            Token::RightParen,
            Token::BackrefRelative(-1),
            Token::Eof,
        ]
    );
}

#[test]
fn test_escape_uppercase_g() {
    // \G in patterns is a literal G (escaped character)
    let mut lexer = Lexer::new(r"\G");
    let tokens = lexer.tokenize();

    assert_eq!(tokens, vec![Token::Escape('G'), Token::Eof,]);
}

#[test]
fn test_escape_g_no_brace() {
    // \g without { is just an escaped 'g'
    let mut lexer = Lexer::new(r"\g");
    let tokens = lexer.tokenize();

    assert_eq!(tokens, vec![Token::Escape('g'), Token::Eof,]);
}

#[test]
fn test_backref_name_with_number() {
    // \g{1} is treated as a named backreference with name "1"
    let mut lexer = Lexer::new(r"\g{1}");
    let tokens = lexer.tokenize();

    assert_eq!(
        tokens,
        vec![Token::BackrefName("1".to_string()), Token::Eof,]
    );
}
