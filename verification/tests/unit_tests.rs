use ogex::ast::{CharacterClass, ClassItem, Expr, Quantifier};
use ogex::error::{LexerErrorKind, ParseError, RegexError, Span, SpannedError};
use ogex::groups::{GroupCollector, GroupRegistry, GroupRegistryError};
use ogex::handle::RegexHandle;
use ogex::Regex;
use ogex::lexer::{Lexer, Token};
use ogex::nfa::{Nfa, Transition};
use ogex::parser::{parse, Parser};
use ogex::replace::{Replacement, ReplacementError, ReplacementPart};
use ogex::transpiler::{transpile, transpile_debug};
use std::collections::HashSet;

fn tokens(pattern: &str) -> Vec<Token> {
    Lexer::new(pattern).tokenize()
}

#[test]
fn tokens_read_as_in_messages() {
    let cases: Vec<(Token, &str)> = vec![
        (Token::LeftParen, "`(`"),
        (Token::RightParen, "`)`"),
        (Token::LeftBracket, "`[`"),
        (Token::RightBracket, "`]`"),
        (Token::LeftBrace, "`{`"),
        (Token::RightBrace, "`}`"),
        (Token::Colon, "`:`"),
        (Token::Comma, "`,`"),
        (Token::Pipe, "`|`"),
        (Token::Caret, "`^`"),
        (Token::Dollar, "`$`"),
        (Token::Dot, "`.`"),
        (Token::Star, "`*`"),
        (Token::StarLazy, "`*?`"),
        (Token::Plus, "`+`"),
        (Token::PlusLazy, "`+?`"),
        (Token::Question, "`?`"),
        (Token::NonCapturing, "`?:`"),
        (Token::NamedGroupStart("n".to_string()), "named group `n`"),
        (Token::Escape('n'), "escape `\\n`"),
        (Token::BackrefNumber(12), "backref `\\12`"),
        (Token::BackrefNumber(0), "backref `\\0`"),
        (Token::BackrefRelative(-3), "relative backref `\\g{-3}`"),
        (Token::BackrefRelative(-2147483647), "relative backref `\\g{-2147483647}`"),
        (Token::BackrefName("x".to_string()), "backref `\\g{x}`"),
        (Token::WordChar, "shorthand `\\w`"),
        (Token::NonWordChar, "shorthand `\\W`"),
        (Token::Digit, "shorthand `\\d`"),
        (Token::NonDigit, "shorthand `\\D`"),
        (Token::Whitespace, "shorthand `\\s`"),
        (Token::NonWhitespace, "shorthand `\\S`"),
        (Token::WordBoundary, "boundary `\\b`"),
        (Token::NonWordBoundary, "boundary `\\B`"),
        (Token::Literal('a'), "literal `a`"),
        (Token::Eof, "EOF"),
    ];
    for (token, text) in cases {
        assert_eq!(token.to_string(), text);
    }
}

#[test]
fn lexer_reads_lazy_operators_and_groups() {
    assert_eq!(
        tokens("a*?b+?(?:c)(?d)"),
        vec![
            Token::Literal('a'),
            Token::StarLazy,
            Token::Literal('b'),
            Token::PlusLazy,
            Token::NonCapturing,
            Token::Literal('c'),
            Token::RightParen,
            Token::LeftParen,
            Token::Question,
            Token::Literal('d'),
            Token::RightParen,
            Token::Eof,
        ]
    );
    assert_eq!(
        tokens("(ab)(_x9:"),
        vec![
            Token::LeftParen,
            Token::Literal('a'),
            Token::Literal('b'),
            Token::RightParen,
            Token::NamedGroupStart("_x9".to_string()),
            Token::Eof,
        ]
    );
    assert_eq!(tokens("(abc"), vec![
        Token::LeftParen,
        Token::Literal('a'),
        Token::Literal('b'),
        Token::Literal('c'),
        Token::Eof,
    ]);
}

#[test]
fn lexer_reads_escapes_at_the_edges() {
    assert_eq!(tokens("\\"), vec![Token::Escape('\0'), Token::Eof]);
    assert_eq!(tokens("\\w\\W\\d\\D\\s\\S\\b\\B"), vec![
        Token::WordChar,
        Token::NonWordChar,
        Token::Digit,
        Token::NonDigit,
        Token::Whitespace,
        Token::NonWhitespace,
        Token::WordBoundary,
        Token::NonWordBoundary,
        Token::Eof,
    ]);
    assert_eq!(tokens("\\4294967295"), vec![Token::BackrefNumber(4294967295), Token::Eof]);
    assert_eq!(tokens("\\4294967296"), vec![Token::BackrefNumber(4294967295), Token::Eof]);
    assert_eq!(tokens("\\99999999999999999999x"), vec![
        Token::BackrefNumber(4294967295),
        Token::Literal('x'),
        Token::Eof,
    ]);
    assert_eq!(tokens("\\007"), vec![Token::BackrefNumber(7), Token::Eof]);
    assert_eq!(tokens("\\gx"), vec![Token::Escape('g'), Token::Literal('x'), Token::Eof]);
}

#[test]
fn lexer_reads_braced_backrefs() {
    assert_eq!(tokens("\\g{abc"), vec![Token::BackrefName("abc".to_string()), Token::Eof]);
    assert_eq!(tokens("\\g{}x"), vec![
        Token::BackrefName("".to_string()),
        Token::Literal('x'),
        Token::Eof,
    ]);
    assert_eq!(tokens("\\g{-0}"), vec![Token::BackrefName("-0".to_string()), Token::Eof]);
    assert_eq!(tokens("\\g{-}"), vec![Token::BackrefName("-".to_string()), Token::Eof]);
    assert_eq!(tokens("\\g{-1a}"), vec![Token::BackrefName("-1a".to_string()), Token::Eof]);
    assert_eq!(tokens("\\g{-+1}"), vec![Token::BackrefName("-+1".to_string()), Token::Eof]);
    assert_eq!(tokens("\\g{-012}"), vec![Token::BackrefRelative(-12), Token::Eof]);
    assert_eq!(tokens("\\g{-2147483647}"), vec![Token::BackrefRelative(-2147483647), Token::Eof]);
    assert_eq!(
        tokens("\\g{-2147483648}"),
        vec![Token::BackrefName("-2147483648".to_string()), Token::Eof]
    );
}

#[test]
fn lexer_goes_token_by_token() {
    let mut lexer = Lexer::new("a|");
    assert_eq!(lexer.peek(), Some('a'));
    assert_eq!(lexer.next_token(), Token::Literal('a'));
    assert_eq!(lexer.peek(), Some('|'));
    assert_eq!(lexer.next_token(), Token::Pipe);
    assert_eq!(lexer.peek(), None);
    assert_eq!(lexer.next_token(), Token::Eof);
    assert_eq!(lexer.next_token(), Token::Eof);
    assert_eq!(lexer.tokenize(), vec![Token::Eof]);
}

#[test]
fn parser_builds_the_expected_trees() {
    assert_eq!(parse("").unwrap(), Expr::Empty);
    assert_eq!(parse("a").unwrap(), Expr::Literal('a'));
    assert_eq!(
        parse("ab|c").unwrap(),
        Expr::Alternation(vec![
            Expr::Sequence(vec![Expr::Literal('a'), Expr::Literal('b')]),
            Expr::Literal('c'),
        ])
    );
    assert_eq!(parse("a|").unwrap(), Expr::Alternation(vec![Expr::Literal('a'), Expr::Empty]));
    assert_eq!(parse("()").unwrap(), Expr::Group(Box::new(Expr::Empty)));
    assert_eq!(
        parse("(?:a)+?").unwrap(),
        Expr::Quantified {
            expr: Box::new(Expr::NonCapturingGroup(Box::new(Expr::Literal('a')))),
            quantifier: Quantifier::OneOrMoreLazy,
        }
    );
    assert_eq!(
        parse(r"\.\w\b\B\1\g{-1}\g{n}^$.").unwrap(),
        Expr::Sequence(vec![
            Expr::Literal('.'),
            Expr::Shorthand('w'),
            Expr::WordBoundary,
            Expr::NonWordBoundary,
            Expr::Backreference(1),
            Expr::RelativeBackreference(-1),
            Expr::NamedBackreference("n".to_string()),
            Expr::StartAnchor,
            Expr::EndAnchor,
            Expr::Any,
        ])
    );
    assert_eq!(
        parse(r"[^a-c\dx-]").unwrap(),
        Expr::CharacterClass(CharacterClass {
            negated: true,
            items: vec![
                ClassItem::Range('a', 'c'),
                ClassItem::Shorthand('d'),
                ClassItem::Char('x'),
                ClassItem::Char('-'),
            ],
        })
    );
    assert_eq!(
        parse(r"[c-a\n]").unwrap(),
        Expr::CharacterClass(CharacterClass {
            negated: false,
            items: vec![
                ClassItem::Char('c'),
                ClassItem::Char('-'),
                ClassItem::Char('a'),
                ClassItem::Shorthand('n'),
            ],
        })
    );
}

#[test]
fn parser_reads_counted_quantifiers() {
    let quantifier = |pattern: &str| match parse(pattern).unwrap() {
        Expr::Quantified { quantifier, .. } => quantifier,
        other => panic!("no quantifier in {:?}", other),
    };
    assert_eq!(quantifier("a{0}"), Quantifier::Exactly(0));
    assert_eq!(quantifier("a{12}"), Quantifier::Exactly(12));
    assert_eq!(quantifier("a{3,}"), Quantifier::AtLeast(3));
    assert_eq!(quantifier("a{3,}?"), Quantifier::AtLeastLazy(3));
    assert_eq!(quantifier("a{3,5}"), Quantifier::Between(3, 5));
    assert_eq!(quantifier("a{3,5}?"), Quantifier::BetweenLazy(3, 5));
    assert_eq!(quantifier("a{3,3}"), Quantifier::Between(3, 3));
    assert_eq!(quantifier("a{4294967295}"), Quantifier::Exactly(4294967295));
    assert_eq!(quantifier("a*?"), Quantifier::ZeroOrMoreLazy);
    assert_eq!(quantifier("a?"), Quantifier::Optional);
    assert_eq!(
        parse("a{2}?"),
        Err(ParseError::UnexpectedToken {
            expected: "expression".to_string(),
            found: "`?`".to_string(),
        })
    );
    assert_eq!(parse("a{3,2}"), Err(ParseError::InvalidQuantifier("{3,2}".to_string())));
    assert_eq!(parse("a{3,2}?"), Err(ParseError::InvalidQuantifier("{3,2}".to_string())));
    assert_eq!(
        parse("a{,2}"),
        Err(ParseError::UnexpectedToken {
            expected: "number".to_string(),
            found: "`,`".to_string(),
        })
    );
}

#[test]
fn parser_reports_the_end_of_the_pattern() {
    assert_eq!(parse("("), Err(ParseError::UnexpectedToken {
        expected: "RightParen".to_string(),
        found: "EOF".to_string(),
    }));
    assert_eq!(parse("a**"), Err(ParseError::UnexpectedToken {
        expected: "expression".to_string(),
        found: "`*`".to_string(),
    }));
    assert_eq!(parse("]"), Err(ParseError::UnexpectedToken {
        expected: "EOF".to_string(),
        found: "`]`".to_string(),
    }));
    let mut parser = Parser::new("ab");
    assert_eq!(
        parser.parse().unwrap(),
        Expr::Sequence(vec![Expr::Literal('a'), Expr::Literal('b')])
    );
}

#[test]
fn expressions_print_every_quantifier_and_class_item() {
    let a = || Expr::literal('a');
    assert_eq!(Expr::quantified(a(), Quantifier::ZeroOrMoreLazy).to_regex_string(), "a*?");
    assert_eq!(Expr::quantified(a(), Quantifier::OneOrMoreLazy).to_regex_string(), "a+?");
    assert_eq!(Expr::quantified(a(), Quantifier::Exactly(0)).to_regex_string(), "a{0}");
    assert_eq!(Expr::quantified(a(), Quantifier::Exactly(4294967295)).to_regex_string(), "a{4294967295}");
    assert_eq!(Expr::quantified(a(), Quantifier::AtLeast(10)).to_regex_string(), "a{10,}");
    assert_eq!(Expr::quantified(a(), Quantifier::AtLeastLazy(2)).to_regex_string(), "a{2,}?");
    assert_eq!(Expr::quantified(a(), Quantifier::Between(2, 305)).to_regex_string(), "a{2,305}");
    assert_eq!(Expr::quantified(a(), Quantifier::BetweenLazy(0, 1)).to_regex_string(), "a{0,1}?");
    assert_eq!(
        Expr::quantified(Expr::alternation(vec![a(), Expr::literal('b')]), Quantifier::OneOrMore)
            .to_regex_string(),
        "(?:a|b)+"
    );
    assert_eq!(
        Expr::char_class(true, vec![ClassItem::Shorthand('d'), ClassItem::Range('a', 'f'), ClassItem::Char('-')])
            .to_regex_string(),
        "[^\\da-f-]"
    );
    assert_eq!(Expr::Shorthand('W').to_regex_string(), "\\W");
    assert_eq!(Expr::WordBoundary.to_regex_string(), "\\b");
    assert_eq!(Expr::NonWordBoundary.to_regex_string(), "\\B");
    assert_eq!(Expr::relative_backreference(-2147483648).to_regex_string(), "\\g{-2147483648}");
    assert_eq!(Expr::relative_backreference(7).to_regex_string(), "\\g{7}");
    assert_eq!(Expr::backreference(0).to_regex_string(), "\\0");
    assert_eq!(Expr::sequence(vec![]).to_regex_string(), "");
    assert_eq!(Expr::sequence(vec![a()]), Expr::Literal('a'));
    assert_eq!(Expr::alternation(vec![]), Expr::Empty);
    assert_eq!(Expr::alternation(vec![a()]), Expr::Literal('a'));
    assert_eq!(Expr::literal('a').to_string(), "a");
    assert_eq!(Quantifier::Between(1, 2).to_regex_string(), "{1,2}");
    assert_eq!(
        CharacterClass { negated: false, items: vec![ClassItem::Char('x')] }.to_regex_string(),
        "[x]"
    );
}

#[test]
fn errors_have_their_messages() {
    assert_eq!(LexerErrorKind::UnexpectedChar('!').to_string(), "unexpected character '!'");
    assert_eq!(LexerErrorKind::UnclosedCharacterClass.to_string(), "unclosed character class");
    assert_eq!(LexerErrorKind::InvalidEscape('q').to_string(), "invalid escape sequence '\\q'");
    assert_eq!(LexerErrorKind::UnclosedGroup.to_string(), "unclosed group");
    assert_eq!(LexerErrorKind::InvalidGroupName("1x".to_string()).to_string(), "invalid group name '1x'");
    assert_eq!(ParseError::UnexpectedEof.to_string(), "unexpected end of input");
    assert_eq!(ParseError::UndefinedBackreference("x".to_string()).to_string(), "undefined backreference 'x'");
    assert_eq!(ParseError::InvalidQuantifier("{2,1}".to_string()).to_string(), "invalid quantifier: {2,1}");
    assert_eq!(
        RegexError::Lexer { position: 1234567890, kind: LexerErrorKind::UnclosedGroup }.to_string(),
        "lexer error at position 1234567890: unclosed group"
    );
    assert_eq!(
        RegexError::Lexer { position: 0, kind: LexerErrorKind::UnclosedGroup }.to_string(),
        "lexer error at position 0: unclosed group"
    );
    assert_eq!(RegexError::Compile("x".to_string()).to_string(), "compilation error: x");
    assert_eq!(RegexError::Runtime("y".to_string()).to_string(), "runtime error: y");
    assert_eq!(
        SpannedError::new(RegexError::Runtime("y".to_string()), Span::new(3, 10)).to_string(),
        "runtime error: y at position Span { start: 3, end: 10 }"
    );
    assert_eq!(GroupRegistryError::DuplicateGroupName("a".to_string()).to_string(), "duplicate group name: a");
    assert_eq!(GroupRegistryError::UndefinedBackreference("a".to_string()).to_string(), "undefined backreference: a");
    assert_eq!(GroupRegistryError::InvalidBackreference(9).to_string(), "invalid backreference number: 9");
    assert_eq!(
        GroupRegistryError::InvalidRelativeBackreference(-4).to_string(),
        "invalid relative backreference index: -4"
    );
    assert_eq!(ReplacementError::InvalidBackreference("z".to_string()).to_string(), "invalid backreference: z");
}

#[test]
fn spans_measure_themselves() {
    assert_eq!(Span::new(3, 10).len(), 7);
    assert_eq!(Span::new(10, 3).len(), 0);
    assert!(Span::new(4, 4).is_empty());
    assert!(!Span::new(4, 5).is_empty());
    assert!(!Span::new(5, 4).is_empty());
    assert_eq!(Span::default(), Span::new(0, 0));
    assert_eq!(Span::single(0), Span::new(0, 1));
}

#[test]
fn registry_keeps_indices_names_and_numbered_groups() {
    let mut registry = GroupRegistry::new();
    assert_eq!(registry.group_count(), 0);
    assert_eq!(registry.numbered_group_count(), 0);
    assert_eq!(registry.register_group(None), Ok(1));
    assert_eq!(registry.register_group(Some("a".to_string())), Ok(2));
    assert_eq!(
        registry.register_group(Some("a".to_string())),
        Err(GroupRegistryError::DuplicateGroupName("a".to_string()))
    );
    assert_eq!(registry.group_count(), 2);
    assert_eq!(registry.register_group(None), Ok(3));
    assert_eq!(registry.numbered_groups().to_vec(), vec![1, 3]);
    assert_eq!(registry.get_by_name("a"), Some(2));
    assert_eq!(registry.get_by_name("b"), None);
    assert!(registry.has_name("a"));
    assert!(!registry.has_name(""));
    assert!(registry.get_by_index(0).is_none());
    assert!(registry.get_by_index(4).is_none());
    let third = registry.get_by_index(3).unwrap();
    assert_eq!((third.index, third.name.clone(), third.is_named), (3, None, false));
    assert_eq!(registry.groups().len(), 3);
    assert_eq!(registry.groups()[1].name, Some("a".to_string()));
    assert_eq!(registry.validate_backref_name("a"), Ok(2));
    assert_eq!(
        registry.validate_backref_name("b"),
        Err(GroupRegistryError::UndefinedBackreference("b".to_string()))
    );
    assert_eq!(registry.validate_backref_number(3), Ok(3));
    assert_eq!(registry.validate_backref_number(4), Err(GroupRegistryError::InvalidBackreference(4)));
    assert_eq!(registry.get_numbered_by_reverse_index(1), Ok(3));
    assert_eq!(registry.get_numbered_by_reverse_index(2), Ok(1));
    assert_eq!(
        registry.get_numbered_by_reverse_index(3),
        Err(GroupRegistryError::InvalidRelativeBackreference(3))
    );
    assert_eq!(
        registry.get_numbered_by_reverse_index(usize::MAX),
        Err(GroupRegistryError::InvalidRelativeBackreference(i32::MAX))
    );
    assert_eq!(registry.resolve_relative_backreference(-1), Ok(3));
    assert_eq!(registry.resolve_relative_backreference(-2), Ok(1));
    assert_eq!(
        registry.resolve_relative_backreference(-3),
        Err(GroupRegistryError::InvalidRelativeBackreference(3))
    );
    assert_eq!(
        registry.resolve_relative_backreference(5),
        Err(GroupRegistryError::InvalidRelativeBackreference(5))
    );
    assert_eq!(
        registry.resolve_relative_backreference(i32::MIN),
        Err(GroupRegistryError::InvalidRelativeBackreference(i32::MAX))
    );
    let fresh = GroupRegistry::default();
    assert_eq!(fresh.group_count(), 0);
}

#[test]
fn collector_counts_and_registers_in_opening_order() {
    let expr = parse("(a(x:b)|(?:(c)){3})(y:d)").unwrap();
    assert_eq!(GroupCollector::count(&expr, 0, 10), Some(4));
    assert_eq!(GroupCollector::count(&expr, 6, 10), Some(10));
    assert_eq!(GroupCollector::count(&expr, 7, 10), None);
    assert_eq!(GroupCollector::count(&expr, 0, 3), None);
    let mut registry = GroupRegistry::new();
    assert_eq!(GroupCollector::collect(&expr, &mut registry), Ok(()));
    assert_eq!(registry.group_count(), 4);
    assert_eq!(registry.get_by_name("x"), Some(2));
    assert_eq!(registry.get_by_name("y"), Some(4));
    assert_eq!(registry.numbered_groups().to_vec(), vec![1, 3]);
    let hidden = Expr::sequence(vec![
        Expr::Lookahead(Box::new(Expr::group(Expr::literal('a')))),
        Expr::AtomicGroup(Box::new(Expr::group(Expr::literal('b')))),
    ]);
    assert_eq!(GroupCollector::count(&hidden, 0, 10), Some(1));
    let dup = parse("(x:a)(b)(x:c)(d)").unwrap();
    let mut registry = GroupRegistry::new();
    assert_eq!(
        GroupCollector::collect(&dup, &mut registry),
        Err(GroupRegistryError::DuplicateGroupName("x".to_string()))
    );
    assert_eq!(registry.group_count(), 2);
}

#[test]
fn automaton_has_the_states_and_edges_of_its_pattern() {
    let nfa = Nfa::from_expr(&parse("a").unwrap());
    assert_eq!((nfa.start, nfa.accept, nfa.states.len()), (0, 1, 2));
    assert_eq!(nfa.states[0].transitions, vec![(Transition::Char('a'), 1)]);
    assert!(nfa.states[1].transitions.is_empty());

    let nfa = Nfa::from_expr(&parse("a*").unwrap());
    assert_eq!((nfa.start, nfa.accept, nfa.states.len()), (2, 3, 4));
    assert_eq!(nfa.states[2].transitions, vec![(Transition::Epsilon, 0), (Transition::Epsilon, 3)]);
    assert_eq!(nfa.states[1].transitions, vec![(Transition::Epsilon, 0), (Transition::Epsilon, 3)]);
    let lazy = Nfa::from_expr(&parse("a*?").unwrap());
    assert_eq!(lazy.states[2].transitions, vec![(Transition::Epsilon, 3), (Transition::Epsilon, 0)]);
    assert_eq!(lazy.states[1].transitions, vec![(Transition::Epsilon, 3), (Transition::Epsilon, 0)]);
    let plus = Nfa::from_expr(&parse("a+").unwrap());
    assert_eq!(plus.states[2].transitions, vec![(Transition::Epsilon, 0)]);
    assert_eq!(plus.states[1].transitions, vec![(Transition::Epsilon, 0), (Transition::Epsilon, 3)]);
    let plus_lazy = Nfa::from_expr(&parse("a+?").unwrap());
    assert_eq!(plus_lazy.states[1].transitions, vec![(Transition::Epsilon, 3), (Transition::Epsilon, 0)]);
    let optional = Nfa::from_expr(&parse("a?").unwrap());
    assert_eq!(optional.states[2].transitions, vec![(Transition::Epsilon, 0), (Transition::Epsilon, 3)]);
    assert_eq!(optional.states[1].transitions, vec![(Transition::Epsilon, 3)]);

    let nfa = Nfa::from_expr(&parse("(x:a)(b)").unwrap());
    assert_eq!(nfa.states.len(), 8);
    assert_eq!(nfa.states[0].transitions, vec![(Transition::GroupStart(1), 1)]);
    assert_eq!(nfa.states[2].transitions, vec![(Transition::GroupEnd(1), 3)]);
    assert_eq!(nfa.states[3].transitions, vec![(Transition::Epsilon, 4)]);
    assert_eq!(nfa.states[4].transitions, vec![(Transition::GroupStart(2), 5)]);
    assert_eq!(nfa.numbered_groups().to_vec(), vec![2]);
    assert_eq!(nfa.numbered_group_count(), 1);
    assert_eq!(nfa.resolve_relative(-1), Some(2));
    assert_eq!(nfa.resolve_relative(-2), None);
    assert_eq!(nfa.resolve_relative(0), None);

    let nfa = Nfa::from_expr(&parse(r"(x:a)\g{x}\g{1}\g{7}\g{y}\D").unwrap());
    let labels: Vec<Transition> = nfa
        .states
        .iter()
        .flat_map(|s| s.transitions.iter().map(|t| t.0.clone()))
        .filter(|t| *t != Transition::Epsilon)
        .collect();
    assert_eq!(
        labels,
        vec![
            Transition::GroupStart(1),
            Transition::Char('a'),
            Transition::GroupEnd(1),
            Transition::Backref(1),
            Transition::Backref(1),
            Transition::Backref(7),
            Transition::Backref(0),
            Transition::CharClass { negated: true, items: vec![ClassItem::Shorthand('d')] },
        ]
    );
}

#[test]
fn counted_quantifiers_build_copies() {
    assert_eq!(Nfa::from_expr(&parse("a{0}").unwrap()).states.len(), 2);
    assert_eq!(Nfa::from_expr(&parse("a{1}").unwrap()).states.len(), 2);
    assert_eq!(Nfa::from_expr(&parse("a{3}").unwrap()).states.len(), 6);
    assert_eq!(Nfa::from_expr(&parse("a{2,}").unwrap()).states.len(), 8);
    assert_eq!(Nfa::from_expr(&parse("a{2,4}").unwrap()).states.len(), 10);
    assert_eq!(Nfa::from_expr(&parse("a{2,2}").unwrap()).states.len(), 4);
    let reversed = Expr::quantified(Expr::literal('a'), Quantifier::Between(3, 1));
    assert_eq!(Nfa::from_expr(&reversed).states.len(), 6);
    let nfa = Nfa::from_expr(&parse("a{1,2}").unwrap());
    assert_eq!(nfa.states[1].transitions, vec![(Transition::Epsilon, 4), (Transition::Epsilon, 3)]);
    let nfa = Nfa::from_expr(&parse("a{1,2}?").unwrap());
    assert_eq!(nfa.states[1].transitions, vec![(Transition::Epsilon, 3), (Transition::Epsilon, 4)]);
}

#[test]
fn closure_follows_plain_edges_only() {
    let mut nfa = Nfa::new();
    let s0 = nfa.new_state();
    let s1 = nfa.new_state();
    let s2 = nfa.new_state();
    let s3 = nfa.new_state();
    let s4 = nfa.new_state();
    nfa.add_transition(s0, Transition::Epsilon, s1);
    nfa.add_transition(s1, Transition::Char('a'), s2);
    nfa.add_transition(s1, Transition::Epsilon, s0);
    nfa.add_transition(s2, Transition::Epsilon, s3);
    nfa.add_transition(s3, Transition::GroupStart(1), s4);
    let from = |states: &[usize]| -> Vec<usize> {
        let seeds: HashSet<usize> = states.iter().copied().collect();
        let mut all: Vec<usize> = nfa.epsilon_closure(&seeds).into_iter().collect();
        all.sort();
        all
    };
    assert_eq!(from(&[]), Vec::<usize>::new());
    assert_eq!(from(&[0]), vec![0, 1]);
    assert_eq!(from(&[1]), vec![0, 1]);
    assert_eq!(from(&[2]), vec![2, 3]);
    assert_eq!(from(&[4, 2]), vec![2, 3, 4]);
    assert_eq!(from(&[0, 2]), vec![0, 1, 2, 3]);
}

#[test]
fn templates_split_into_parts() {
    let parts = |template: &str| Replacement::parse(template).unwrap().parts().to_vec();
    assert_eq!(parts(""), Vec::<ReplacementPart>::new());
    assert_eq!(parts("abc"), vec![ReplacementPart::Literal("abc".to_string())]);
    assert_eq!(parts("a\\"), vec![ReplacementPart::Literal("a\\".to_string())]);
    assert_eq!(parts("\\\\1"), vec![ReplacementPart::Literal("\\1".to_string())]);
    assert_eq!(parts("\\12a"), vec![
        ReplacementPart::BackrefNumber(12),
        ReplacementPart::Literal("a".to_string()),
    ]);
    assert_eq!(parts("\\0"), vec![ReplacementPart::BackrefNumber(0)]);
    assert_eq!(parts("\\4294967296"), vec![ReplacementPart::BackrefNumber(4294967295)]);
    assert_eq!(parts("\\g{0}"), vec![ReplacementPart::EntireMatch]);
    assert_eq!(parts("\\g{00}"), vec![ReplacementPart::BackrefNumber(0)]);
    assert_eq!(parts("\\g{12}"), vec![ReplacementPart::BackrefNumber(12)]);
    assert_eq!(parts("\\g{4294967296}"), vec![ReplacementPart::BackrefName("4294967296".to_string())]);
    assert_eq!(parts("\\g{n}\\G"), vec![
        ReplacementPart::BackrefName("n".to_string()),
        ReplacementPart::EntireMatch,
    ]);
    assert_eq!(parts("\\g{}"), vec![ReplacementPart::BackrefName("".to_string())]);
    assert_eq!(parts("x\\g{ab"), vec![ReplacementPart::Literal("x\\g{ab".to_string())]);
    assert_eq!(parts("\\gx"), vec![ReplacementPart::Literal("\\gx".to_string())]);
    assert_eq!(parts("\\g"), vec![ReplacementPart::Literal("\\g".to_string())]);
}

#[test]
fn templates_apply_to_spans_of_codepoints() {
    let input = "h\u{e9}llo w\u{f6}rld";
    let apply = |template: &str| {
        Replacement::parse(template).unwrap().apply_with_names(
            input,
            6,
            11,
            &[(0, 5), (7, 8), (4, 2), (9, 30)],
            &[("first".to_string(), 1), ("all".to_string(), 0), ("far".to_string(), 9), ("first".to_string(), 2)],
        )
    };
    assert_eq!(apply("\\G"), "w\u{f6}rld");
    assert_eq!(apply("\\g{0}|\\0"), "w\u{f6}rld|w\u{f6}rld");
    assert_eq!(apply("<\\1>"), "<h\u{e9}llo>");
    assert_eq!(apply("\\2\\2"), "\u{f6}\u{f6}");
    assert_eq!(apply("[\\3][\\4][\\5]"), "[][][]");
    assert_eq!(apply("\\g{first}-\\g{all}-\\g{far}-\\g{none}"), "h\u{e9}llo-w\u{f6}rld--");
    assert_eq!(apply("plain text"), "plain text");
    let bad = Replacement::parse("\\G").unwrap();
    assert_eq!(bad.apply(input, 5, 3, &[]), "");
    assert_eq!(bad.apply(input, 0, 12, &[]), "");
    assert_eq!(bad.apply(input, 0, 11, &[]), input);
    assert_eq!(Replacement::parse("\\g{first}").unwrap().apply(input, 0, 11, &[(0, 1)]), "");
}

#[test]
fn literal_templates_come_back_unchanged() {
    for template in ["", "x", "no references here", "\u{e9}\u{f6} {1} $1 g{0}"] {
        let parsed = Replacement::parse(template).unwrap();
        assert_eq!(parsed.apply("some input", 2, 6, &[(0, 4), (5, 10)]), template);
        assert_eq!(parsed.apply("", 0, 0, &[]), template);
    }
}

#[test]
fn plain_patterns_transpile_to_themselves() {
    for pattern in ["", "a", "abc", "hello world", "\u{e9}t\u{e9}-1 = 2;"] {
        let once = transpile(pattern).unwrap();
        assert_eq!(once, pattern);
        assert_eq!(parse(&once), parse(pattern));
    }
    assert!(parse(&transpile("(n:a)").unwrap()).is_err());
}

#[test]
fn literals_that_mean_something_keep_their_backslash() {
    for pattern in [r"a\.b", r"\(\)\[\]\{\}\:\,\|\^\$\.\*\+\?\\", r"(a\:b)", r"a\*?", r"[a\]b]\]"] {
        let once = transpile(pattern).unwrap();
        assert_eq!(once, pattern);
        assert_eq!(parse(&once), parse(pattern));
    }
    for (pattern, conventional) in [(r"\a\.\-", r"a\.-"), (r"(\ab)\g", "(ab)g"), (r"x\{2\}", r"x\{2\}")] {
        let once = transpile(pattern).unwrap();
        assert_eq!(once, conventional);
        assert_eq!(parse(&once), parse(pattern));
    }
    assert_eq!(Expr::literal('.').to_regex_string(), r"\.");
    assert_eq!(Expr::literal('x').to_regex_string(), "x");
    let dotted = Regex::new(&transpile(r"a\.b").unwrap()).unwrap();
    assert!(dotted.is_match("a.b"));
    assert!(!dotted.is_match("axb"));
}

#[test]
fn a_backslash_that_escapes_nothing_is_refused() {
    let invalid = RegexError::Lexer { position: 1, kind: LexerErrorKind::InvalidEscape('\0') };
    assert_eq!(Regex::new("a\\").err(), Some(invalid.clone()));
    assert_eq!(transpile("a\\").err(), Some(invalid.clone()));
    assert_eq!(ogex::compile("a\\").err(), Some(invalid.clone()));
    assert_eq!(transpile_debug("a\\").err(), Some(invalid));
    assert_eq!(
        Regex::new("\\").err(),
        Some(RegexError::Lexer { position: 0, kind: LexerErrorKind::InvalidEscape('\0') })
    );
    assert_eq!(
        Regex::new("\u{e9}\u{e9}\\").err(),
        Some(RegexError::Lexer { position: 2, kind: LexerErrorKind::InvalidEscape('\0') })
    );
    assert!(Regex::new(r"a\\").unwrap().is_match(r"a\"));
    assert!(Regex::new("a\\\u{0}").unwrap().is_match("a\u{0}"));
    assert!(Regex::new(r"(a)\g{x\").is_ok());
    assert!(RegexHandle::compile("a\\").is_err());
}

#[test]
fn braced_template_numbers_may_carry_a_plus_sign() {
    let parts = |template: &str| Replacement::parse(template).unwrap().parts().to_vec();
    assert_eq!(parts(r"\g{+7}"), [ReplacementPart::BackrefNumber(7)]);
    assert_eq!(parts(r"\g{7}"), [ReplacementPart::BackrefNumber(7)]);
    assert_eq!(parts(r"\g{+0}"), [ReplacementPart::BackrefNumber(0)]);
    assert_eq!(parts(r"\g{0}"), [ReplacementPart::EntireMatch]);
    assert_eq!(parts(r"\g{+}"), [ReplacementPart::BackrefName("+".to_string())]);
    assert_eq!(parts(r"\g{-7}"), [ReplacementPart::BackrefName("-7".to_string())]);
    assert_eq!(parts(r"\g{++7}"), [ReplacementPart::BackrefName("++7".to_string())]);
    assert_eq!(parts(r"\g{+4294967295}"), [ReplacementPart::BackrefNumber(u32::MAX)]);
    assert_eq!(
        parts(r"\g{+4294967296}"),
        [ReplacementPart::BackrefName("+4294967296".to_string())]
    );
    let swap = Replacement::parse(r"\g{+2}\g{+1}").unwrap();
    assert_eq!(swap.apply("ab", 0, 2, &[(0, 1), (1, 2)]), "ba");
}

#[test]
fn debug_report_shows_the_three_forms() {
    let result = transpile_debug("(n:a)+").unwrap();
    assert_eq!(result.input, "(n:a)+");
    assert_eq!(result.output, "(?<n>a)+");
    assert!(result.ast.contains("Quantified"));
    assert!(result.ast.contains("OneOrMore"));
    assert_eq!(
        result.report_text(),
        format!(
            "Transpilation Report\n====================\nInput:  (n:a)+\nAST:    {}\nOutput: (?<n>a)+\n",
            result.ast
        )
    );
    assert!(transpile_debug("(").is_err());
}

#[test]
fn handles_compile_find_and_report() {
    let handle = RegexHandle::compile("b+").unwrap();
    assert!(handle.is_match("abbc"));
    assert!(!handle.is_match("ac"));
    let found = handle.find("a\u{e9}bbc").unwrap();
    assert_eq!((found.start(), found.end()), (2, 4));
    assert_eq!(found.text(), "bb");
    assert!(handle.find("xyz").is_none());
    assert_eq!(
        RegexHandle::compile("(").err().unwrap(),
        "parse error: expected RightParen, found EOF"
    );
}

#[test]
fn counted_repetition_is_the_expression_in_a_row() {
    for (counted, written) in [("[ab]{3}", "[ab][ab][ab]"), ("(?:a|bc){2}", "(?:a|bc)(?:a|bc)"), ("x{1}", "x")] {
        let one = Nfa::from_expr(&parse(counted).unwrap());
        let other = Nfa::from_expr(&parse(written).unwrap());
        assert_eq!((one.start, one.accept, one.states.len()), (other.start, other.accept, other.states.len()));
        for (s, t) in one.states.iter().zip(other.states.iter()) {
            assert_eq!(s.transitions, t.transitions);
            assert_eq!(s.is_accepting, t.is_accepting);
        }
    }
}

#[test]
fn patterns_in_conventional_spelling_transpile_to_themselves() {
    for pattern in [
        "(?:b)+",
        "a*?b+?c?",
        "x{2}y{0,}z{3,10}?w{4,}?",
        r"[^a-z\d_-]|\w\W\s\S\D\b\B",
        r"(a)(b|)\2\g{-1}\g{word}",
        "^(?:(a|b)|c.)*$",
    ] {
        let once = transpile(pattern).unwrap();
        assert_eq!(once, pattern);
        assert_eq!(parse(&once), parse(pattern));
    }
    for (pattern, conventional) in [("a{007}", "a{7}"), (r"(a)\01", r"(a)\1"), (r"(a)\g{-01}", r"(a)\g{-1}")] {
        assert_eq!(transpile(pattern).unwrap(), conventional);
    }
}

#[test]
fn handles_substitute_matches_by_a_template() {
    let handle = RegexHandle::compile(r"(a)(b)?").unwrap();
    assert_eq!(handle.sub(r"<\2\1>", "ab a", None).unwrap(), "<ba> <a>");
    assert_eq!(handle.sub(r"<\2\1>", "ab a", Some(1)).unwrap(), "<ba> a");
    assert_eq!(handle.sub(r"<\2\1>", "ab a", Some(0)).unwrap(), "ab a");
    assert_eq!(handle.sub(r"<\2\1>", "ab a", Some(7)).unwrap(), "<ba> <a>");
    assert_eq!(handle.sub(r"\G\G", "xay", None).unwrap(), "xaay");
    assert_eq!(handle.sub("-", "", None).unwrap(), "");
    assert_eq!(handle.sub("-", "\u{e9}a\u{e9}", None).unwrap(), "\u{e9}-\u{e9}");
    let empty = RegexHandle::compile("x*").unwrap();
    // matches at [0,0), [1,3), [3,3) and [4,4)
    assert_eq!(empty.sub("-", "axxb", None).unwrap(), "-a--b-");
    // a group reaches the template only if its index is not above the
    // number of groups that captured
    let second = RegexHandle::compile(r"(a)?(b)").unwrap();
    assert_eq!(second.sub(r"[\2]", "b", None).unwrap(), "[]");
    assert_eq!(second.sub(r"[\2\1]", "ab", None).unwrap(), "[ba]");
}

#[test]
fn handles_match_at_the_start_only_on_request() {
    let handle = RegexHandle::compile("b+").unwrap();
    assert!(handle.match_("abb").is_none());
    let found = handle.search("abb").unwrap();
    assert_eq!((found.start(), found.end(), found.text()), (1, 3, "bb".to_string()));
    let found = handle.match_("bba").unwrap();
    assert_eq!((found.start(), found.end(), found.text()), (0, 2, "bb".to_string()));
    assert!(handle.match_("").is_none());
    assert!(handle.search("").is_none());
}

#[test]
fn handles_list_matches_and_group_texts() {
    let handle = RegexHandle::compile(r"(a)?(word:b+)(c)?").unwrap();
    let found = handle.find_all("abb-bc-\u{e9}b");
    let texts: Vec<String> = found.iter().map(|m| m.text()).collect();
    assert_eq!(texts, ["abb", "bc", "b"]);
    assert_eq!(found[0].groups(), [Some("a".to_string()), Some("bb".to_string())]);
    assert_eq!(found[1].groups(), [None, Some("b".to_string()), Some("c".to_string())]);
    assert_eq!(found[2].groups(), [None, Some("b".to_string())]);
    assert_eq!((found[2].start(), found[2].end()), (8, 9));
    assert_eq!(found[0].group(1), Some("a".to_string()));
    assert_eq!(found[0].group(3), None);
    assert_eq!(found[0].group(0), None);
    assert_eq!(found[1].named_group("word"), Some("b".to_string()));
    assert_eq!(found[1].named_group("other"), None);
    assert!(handle.find_all("xyz").is_empty());
    let plain = RegexHandle::compile("a").unwrap();
    assert!(plain.find("a").unwrap().groups().is_empty());
}

#[test]
fn handles_transpile_or_give_the_message() {
    assert_eq!(RegexHandle::transpile("(n:a)+"), Ok("(?<n>a)+".to_string()));
    let message = RegexHandle::transpile("(a").unwrap_err();
    assert_eq!(message, transpile("(a").unwrap_err().to_string());
    assert!(!message.is_empty());
}

#[test]
fn transpiling_comes_back_to_the_same_tree() {
    for pattern in [
        "",
        "a",
        r"a\.b",
        r"\a\b\c",
        r"(\ab)",
        r"(a\:b)",
        r"\g\{",
        r"a{007}",
        r"a{0}b{00,010}?c{000,}",
        r"(a)\01\g{-01}",
        r"(a)\g{x",
        r"(a)\g{1}\g{}",
        r"(?:a|b|)*?c+?",
        r"[\a-b\]-]",
        r"[^\w\.x-z]",
        r"^\(a\)$|\||\\",
        r"(a\?)?\*",
        "\u{e9}(\u{e9}\\\u{e9})",
        r"\99999999999999999999",
    ] {
        let tree = parse(pattern).unwrap();
        let once = transpile(pattern).unwrap();
        assert_eq!(parse(&once).unwrap(), tree, "{pattern}");
        assert_eq!(transpile(&once).unwrap(), once, "{pattern}");
    }
}
