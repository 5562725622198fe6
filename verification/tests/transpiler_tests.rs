use ogex::transpiler::{transpile, transpile_debug};

#[test]
fn test_transpile_simple_named_group() {
    let result = transpile("(name:abc)").unwrap();
    assert_eq!(result, "(?<name>abc)");
}

#[test]
fn test_transpile_literals() {
    let result = transpile("abc").unwrap();
    assert_eq!(result, "abc");
}

#[test]
fn test_transpile_empty() {
    let result = transpile("").unwrap();
    assert_eq!(result, "");
}

#[test]
fn test_transpile_nested_groups() {
    let result = transpile("(outer:(inner:abc))").unwrap();
    assert_eq!(result, "(?<outer>(?<inner>abc))");
}

#[test]
fn test_transpile_simple_parens() {
    let result = transpile("(abc)").unwrap();
    assert_eq!(result, "(abc)");
}

#[test]
fn test_transpile_complex_pattern() {
    let result = transpile("(first:hello) (second:world)").unwrap();
    // Note: space is preserved as literal character
    assert_eq!(result, "(?<first>hello) (?<second>world)");
}

#[test]
fn test_transpile_error() {
    let result = transpile("(name:abc");
    assert!(result.is_err());
}

#[test]
fn test_transpile_debug() {
    let result = transpile_debug("(name:abc)").unwrap();
    assert_eq!(result.input, "(name:abc)");
    assert_eq!(result.output, "(?<name>abc)");
}
