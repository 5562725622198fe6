use ogex::Regex;

#[test]
fn engine_test_regex_literal_match() {
    let regex = Regex::new("abc").unwrap();
    assert!(regex.is_match("abc"));
    assert!(regex.is_match("xabcy"));
    assert!(!regex.is_match("ab"));
    assert!(!regex.is_match("xyz"));
}

#[test]
fn engine_test_regex_alternation() {
    let regex = Regex::new("a|b").unwrap();
    assert!(regex.is_match("a"));
    assert!(regex.is_match("b"));
    assert!(regex.is_match("xax"));
    assert!(!regex.is_match("c"));
}

#[test]
fn engine_test_regex_star() {
    let regex = Regex::new("a*").unwrap();
    assert!(regex.is_match(""));
    assert!(regex.is_match("a"));
    assert!(regex.is_match("aaa"));
    assert!(regex.is_match("baaaab"));
}

#[test]
fn engine_test_regex_plus() {
    let regex = Regex::new("a+").unwrap();
    assert!(regex.is_match("a"));
    assert!(regex.is_match("aaa"));
    assert!(!regex.is_match(""));
    assert!(!regex.is_match("bbb"));
}

#[test]
fn engine_test_regex_optional() {
    let regex = Regex::new("a?").unwrap();
    assert!(regex.is_match(""));
    assert!(regex.is_match("a"));
    assert!(regex.is_match("aa"));
}

#[test]
fn engine_test_regex_dot() {
    let regex = Regex::new("a.b").unwrap();
    assert!(regex.is_match("axb"));
    assert!(regex.is_match("a b"));
    assert!(!regex.is_match("ab"));
}

#[test]
fn engine_test_regex_group() {
    let regex = Regex::new("(ab)+").unwrap();
    assert!(regex.is_match("ab"));
    assert!(regex.is_match("abab"));
    assert!(!regex.is_match("a"));
}

#[test]
fn engine_test_regex_char_class() {
    let regex = Regex::new("[abc]").unwrap();
    assert!(regex.is_match("a"));
    assert!(regex.is_match("b"));
    assert!(regex.is_match("c"));
    assert!(!regex.is_match("d"));
}

#[test]
fn engine_test_regex_char_class_negated() {
    let regex = Regex::new("[^abc]").unwrap();
    assert!(!regex.is_match("a"));
    assert!(!regex.is_match("b"));
    assert!(!regex.is_match("c"));
    assert!(regex.is_match("d"));
}

#[test]
fn engine_test_regex_find() {
    let regex = Regex::new("abc").unwrap();
    let m = regex.find("xabcy").unwrap();
    assert_eq!(m.start, 1);
    assert_eq!(m.end, 4);
}

#[test]
fn engine_test_regex_find_all() {
    let regex = Regex::new("a").unwrap();
    let matches = regex.find_all("banana");
    assert_eq!(matches.len(), 3);
}

#[test]
fn test_regex_literal_match() {
    let regex = Regex::new("abc").unwrap();
    assert!(regex.is_match("abc"));
    assert!(regex.is_match("xabcy"));
    assert!(!regex.is_match("ab"));
    assert!(!regex.is_match("xyz"));
}

#[test]
fn test_regex_alternation() {
    let regex = Regex::new("a|b").unwrap();
    assert!(regex.is_match("a"));
    assert!(regex.is_match("b"));
    assert!(regex.is_match("xax"));
    assert!(!regex.is_match("c"));
}

#[test]
fn test_regex_star() {
    let regex = Regex::new("a*").unwrap();
    assert!(regex.is_match(""));
    assert!(regex.is_match("a"));
    assert!(regex.is_match("aaa"));
    assert!(regex.is_match("baaaab"));
}

#[test]
fn test_regex_plus() {
    let regex = Regex::new("a+").unwrap();
    assert!(regex.is_match("a"));
    assert!(regex.is_match("aaa"));
    assert!(!regex.is_match(""));
    assert!(!regex.is_match("bbb"));
}

#[test]
fn test_regex_optional() {
    let regex = Regex::new("a?").unwrap();
    assert!(regex.is_match(""));
    assert!(regex.is_match("a"));
    assert!(regex.is_match("aa"));
}

#[test]
fn test_regex_dot() {
    let regex = Regex::new("a.b").unwrap();
    assert!(regex.is_match("axb"));
    assert!(regex.is_match("a b"));
    assert!(!regex.is_match("ab"));
}

#[test]
fn test_regex_group() {
    let regex = Regex::new("(ab)+").unwrap();
    assert!(regex.is_match("ab"));
    assert!(regex.is_match("abab"));
    assert!(!regex.is_match("a"));
}

#[test]
fn test_regex_char_class() {
    let regex = Regex::new("[abc]").unwrap();
    assert!(regex.is_match("a"));
    assert!(regex.is_match("b"));
    assert!(regex.is_match("c"));
    assert!(!regex.is_match("d"));
}

#[test]
fn test_regex_char_class_negated() {
    let regex = Regex::new("[^abc]").unwrap();
    assert!(!regex.is_match("a"));
    assert!(!regex.is_match("b"));
    assert!(!regex.is_match("c"));
    assert!(regex.is_match("d"));
}

#[test]
fn test_regex_find() {
    let regex = Regex::new("abc").unwrap();
    let m = regex.find("xabcy").unwrap();
    assert_eq!(m.start, 1);
    assert_eq!(m.end, 4);
}

#[test]
fn test_regex_find_all() {
    let regex = Regex::new("a").unwrap();
    let matches = regex.find_all("banana");
    assert_eq!(matches.len(), 3);
}
