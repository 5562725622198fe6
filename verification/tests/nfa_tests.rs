use ogex::ast::{Expr, Quantifier};
use ogex::nfa::{Nfa, Transition};

#[test]
fn test_nfa_from_literal() {
    let expr = Expr::literal('a');
    let nfa = Nfa::from_expr(&expr);
    assert_eq!(nfa.states.len(), 2);
    assert!(!nfa.states[nfa.start].is_accepting);
    assert!(nfa.states[nfa.accept].is_accepting);
}

#[test]
fn test_nfa_from_sequence() {
    let expr = Expr::sequence(vec![Expr::literal('a'), Expr::literal('b')]);
    let nfa = Nfa::from_expr(&expr);
    assert!(nfa.states.len() >= 4); // At least 2 chars + transitions
}

#[test]
fn test_nfa_from_alternation() {
    let expr = Expr::alternation(vec![Expr::literal('a'), Expr::literal('b')]);
    let nfa = Nfa::from_expr(&expr);
    assert!(nfa.states.len() >= 6); // Branch states + 2 chars
}

#[test]
fn test_nfa_from_star() {
    let expr = Expr::quantified(Expr::literal('a'), Quantifier::ZeroOrMore);
    let nfa = Nfa::from_expr(&expr);
    assert!(nfa.states.len() >= 4); // Star requires branch states
}

#[test]
fn test_nfa_from_plus() {
    let expr = Expr::quantified(Expr::literal('a'), Quantifier::OneOrMore);
    let nfa = Nfa::from_expr(&expr);
    assert!(nfa.states.len() >= 4);
}

#[test]
fn test_nfa_from_optional() {
    let expr = Expr::quantified(Expr::literal('a'), Quantifier::Optional);
    let nfa = Nfa::from_expr(&expr);
    assert!(nfa.states.len() >= 4);
}

#[test]
fn test_epsilon_closure() {
    let mut nfa = Nfa::new();
    let s0 = nfa.new_state();
    let s1 = nfa.new_state();
    let s2 = nfa.new_state();

    nfa.add_transition(s0, Transition::Epsilon, s1);
    nfa.add_transition(s1, Transition::Epsilon, s2);

    let closure = nfa.epsilon_closure(&[s0].into_iter().collect());
    assert!(closure.contains(&s0));
    assert!(closure.contains(&s1));
    assert!(closure.contains(&s2));
}

#[test]
fn test_nfa_from_group() {
    let expr = Expr::group(Expr::literal('a'));
    let nfa = Nfa::from_expr(&expr);
    assert!(nfa.states.len() >= 2);
}

#[test]
fn test_nfa_from_named_group() {
    let expr = Expr::named_group("test", Expr::literal('a'));
    let nfa = Nfa::from_expr(&expr);
    assert!(nfa.states.len() >= 2);
}

#[test]
fn test_nfa_from_complex() {
    // (a|b)*c
    let expr = Expr::sequence(vec![
        Expr::quantified(
            Expr::alternation(vec![Expr::literal('a'), Expr::literal('b')]),
            Quantifier::ZeroOrMore,
        ),
        Expr::literal('c'),
    ]);
    let nfa = Nfa::from_expr(&expr);
    assert!(nfa.states.len() >= 8);
}

#[test]
fn test_nfa_from_atomic_group() {
    let expr = Expr::AtomicGroup(Box::new(Expr::literal('a')));
    let nfa = Nfa::from_expr(&expr);
    assert!(nfa.states.len() >= 2);
}
