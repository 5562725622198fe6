use ogex::compile;

#[test]
fn test_end_to_end() {
    // Test the full pipeline: string -> tokens -> AST -> legacy syntax
    let pattern = "(name:abc)";
    let result = compile(pattern).unwrap();
    assert_eq!(result, "(?<name>abc)");
}

#[test]
fn test_round_trip_concept() {
    // Demonstrate the proof-of-concept: custom syntax can be converted
    // Note: using simple pattern since full parser isn't implemented yet
    let custom = "(username:abc)";
    let legacy = compile(custom).unwrap();
    assert_eq!(legacy, "(?<username>abc)");
}
