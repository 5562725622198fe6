use ogex::error::{LexerErrorKind, ParseError, RegexError, Span, SpannedError};

#[test]
fn test_lexer_error_display() {
    let err = RegexError::Lexer {
        position: 5,
        kind: LexerErrorKind::UnexpectedChar('!'),
    };
    assert_eq!(
        err.to_string(),
        "lexer error at position 5: unexpected character '!'"
    );
}

#[test]
fn test_parse_error_unexpected_token() {
    let err = ParseError::UnexpectedToken {
        expected: "`)`".to_string(),
        found: "EOF".to_string(),
    };
    assert_eq!(err.to_string(), "expected `)`, found EOF");
}

#[test]
fn test_parse_error_duplicate_group() {
    let err = ParseError::DuplicateGroupName("name".to_string());
    assert_eq!(err.to_string(), "duplicate group name 'name'");
}

#[test]
fn test_regex_error_from_parse_error() {
    let parse_err = ParseError::UnexpectedEof;
    let regex_err: RegexError = parse_err.into();
    assert_eq!(
        regex_err.to_string(),
        "parse error: unexpected end of input"
    );
}

#[test]
fn test_span_creation() {
    let span = Span::new(10, 20);
    assert_eq!(span.start, 10);
    assert_eq!(span.end, 20);
    assert_eq!(span.len(), 10);
}

#[test]
fn test_span_single() {
    let span = Span::single(5);
    assert_eq!(span.start, 5);
    assert_eq!(span.end, 6);
    assert_eq!(span.len(), 1);
}

#[test]
fn test_spanned_error() {
    let error = RegexError::Parse(ParseError::UnexpectedEof);
    let spanned = SpannedError::new(error, Span::single(42));
    assert!(spanned.to_string().contains("unexpected end of input"));
    assert!(spanned.to_string().contains("42"));
}
