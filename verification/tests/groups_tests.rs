use ogex::ast::Expr;
use ogex::groups::{GroupCollector, GroupRegistry, GroupRegistryError};

#[test]
fn groups_test_register_unnamed_group() {
    let mut registry = GroupRegistry::new();
    let index = registry.register_group(None).unwrap();
    assert_eq!(index, 1);
    assert_eq!(registry.group_count(), 1);
}

#[test]
fn groups_test_register_named_group() {
    let mut registry = GroupRegistry::new();
    let index = registry.register_group(Some("name".to_string())).unwrap();
    assert_eq!(index, 1);
    assert!(registry.has_name("name"));
    assert_eq!(registry.get_by_name("name"), Some(1));
}

#[test]
fn groups_test_register_multiple_groups() {
    let mut registry = GroupRegistry::new();
    let idx1 = registry.register_group(Some("first".to_string())).unwrap();
    let idx2 = registry.register_group(None).unwrap();
    let idx3 = registry.register_group(Some("third".to_string())).unwrap();

    assert_eq!(idx1, 1);
    assert_eq!(idx2, 2);
    assert_eq!(idx3, 3);
    assert_eq!(registry.group_count(), 3);
}

#[test]
fn groups_test_duplicate_name_error() {
    let mut registry = GroupRegistry::new();
    registry.register_group(Some("name".to_string())).unwrap();
    let result = registry.register_group(Some("name".to_string()));
    assert!(matches!(
        result,
        Err(GroupRegistryError::DuplicateGroupName(_))
    ));
}

#[test]
fn groups_test_validate_backref_name() {
    let mut registry = GroupRegistry::new();
    registry.register_group(Some("name".to_string())).unwrap();

    assert_eq!(registry.validate_backref_name("name").unwrap(), 1);
    assert!(matches!(
        registry.validate_backref_name("unknown"),
        Err(GroupRegistryError::UndefinedBackreference(_))
    ));
}

#[test]
fn groups_test_validate_backref_number() {
    let mut registry = GroupRegistry::new();
    registry.register_group(None).unwrap();
    registry.register_group(None).unwrap();

    assert_eq!(registry.validate_backref_number(1).unwrap(), 1);
    assert_eq!(registry.validate_backref_number(2).unwrap(), 2);
    assert!(matches!(
        registry.validate_backref_number(3),
        Err(GroupRegistryError::InvalidBackreference(3))
    ));
    assert!(matches!(
        registry.validate_backref_number(0),
        Err(GroupRegistryError::InvalidBackreference(0))
    ));
}

#[test]
fn groups_test_get_by_index() {
    let mut registry = GroupRegistry::new();
    registry.register_group(Some("name".to_string())).unwrap();

    let info = registry.get_by_index(1).unwrap();
    assert_eq!(info.index, 1);
    assert_eq!(info.name, Some("name".to_string()));
    assert!(info.is_named);
}

#[test]
fn groups_test_collector_with_simple_groups() {

    let expr = Expr::sequence(vec![
        Expr::group(Expr::literal('a')),
        Expr::named_group("second", Expr::literal('b')),
    ]);

    let mut registry = GroupRegistry::new();
    GroupCollector::collect(&expr, &mut registry).unwrap();

    assert_eq!(registry.group_count(), 2);
    assert!(registry.get_by_index(1).is_some());
    assert_eq!(registry.get_by_name("second"), Some(2));
}

#[test]
fn groups_test_collector_with_nested_groups() {

    let expr = Expr::named_group(
        "outer",
        Expr::sequence(vec![
            Expr::literal('a'),
            Expr::named_group("inner", Expr::literal('b')),
        ]),
    );

    let mut registry = GroupRegistry::new();
    GroupCollector::collect(&expr, &mut registry).unwrap();

    assert_eq!(registry.group_count(), 2);
    assert_eq!(registry.get_by_name("outer"), Some(1));
    assert_eq!(registry.get_by_name("inner"), Some(2));
}

#[test]
fn groups_test_collector_with_duplicate_names() {

    let expr = Expr::sequence(vec![
        Expr::named_group("dup", Expr::literal('a')),
        Expr::named_group("dup", Expr::literal('b')),
    ]);

    let mut registry = GroupRegistry::new();
    let result = GroupCollector::collect(&expr, &mut registry);
    assert!(matches!(
        result,
        Err(GroupRegistryError::DuplicateGroupName(_))
    ));
}

#[test]
fn test_numbered_group_count() {
    let mut registry = GroupRegistry::new();
    registry.register_group(None).unwrap(); // group 1, numbered
    registry.register_group(Some("named".to_string())).unwrap(); // group 2, named
    registry.register_group(None).unwrap(); // group 3, numbered

    assert_eq!(registry.numbered_group_count(), 2);
}

#[test]
fn test_get_numbered_by_reverse_index() {
    let mut registry = GroupRegistry::new();
    registry.register_group(None).unwrap(); // group 1, numbered
    registry.register_group(Some("named1".to_string())).unwrap(); // group 2, named
    registry.register_group(None).unwrap(); // group 3, numbered
    registry.register_group(Some("named2".to_string())).unwrap(); // group 4, named
    registry.register_group(None).unwrap(); // group 5, numbered

    // Numbered groups: [1, 3, 5]
    assert_eq!(registry.get_numbered_by_reverse_index(1).unwrap(), 5); // last numbered
    assert_eq!(registry.get_numbered_by_reverse_index(2).unwrap(), 3); // second-to-last
    assert_eq!(registry.get_numbered_by_reverse_index(3).unwrap(), 1); // first numbered

    // Out of bounds
    assert!(matches!(
        registry.get_numbered_by_reverse_index(4),
        Err(GroupRegistryError::InvalidRelativeBackreference(_))
    ));
    assert!(matches!(
        registry.get_numbered_by_reverse_index(0),
        Err(GroupRegistryError::InvalidRelativeBackreference(_))
    ));
}

#[test]
fn test_resolve_relative_backreference() {
    let mut registry = GroupRegistry::new();
    registry.register_group(None).unwrap(); // group 1, numbered
    registry.register_group(Some("named".to_string())).unwrap(); // group 2, named
    registry.register_group(None).unwrap(); // group 3, numbered
    registry.register_group(None).unwrap(); // group 4, numbered

    // Numbered groups: [1, 3, 4]
    assert_eq!(registry.resolve_relative_backreference(-1).unwrap(), 4); // last numbered
    assert_eq!(registry.resolve_relative_backreference(-2).unwrap(), 3); // second-to-last
    assert_eq!(registry.resolve_relative_backreference(-3).unwrap(), 1); // first numbered

    // Positive numbers are invalid
    assert!(matches!(
        registry.resolve_relative_backreference(1),
        Err(GroupRegistryError::InvalidRelativeBackreference(_))
    ));
    assert!(matches!(
        registry.resolve_relative_backreference(0),
        Err(GroupRegistryError::InvalidRelativeBackreference(_))
    ));
}

#[test]
fn test_register_unnamed_group() {
    let mut registry = GroupRegistry::new();
    let index = registry.register_group(None).unwrap();
    assert_eq!(index, 1);
    assert_eq!(registry.group_count(), 1);
}

#[test]
fn test_register_named_group() {
    let mut registry = GroupRegistry::new();
    let index = registry.register_group(Some("name".to_string())).unwrap();
    assert_eq!(index, 1);
    assert!(registry.has_name("name"));
    assert_eq!(registry.get_by_name("name"), Some(1));
}

#[test]
fn test_register_multiple_groups() {
    let mut registry = GroupRegistry::new();
    let idx1 = registry.register_group(Some("first".to_string())).unwrap();
    let idx2 = registry.register_group(None).unwrap();
    let idx3 = registry.register_group(Some("third".to_string())).unwrap();

    assert_eq!(idx1, 1);
    assert_eq!(idx2, 2);
    assert_eq!(idx3, 3);
    assert_eq!(registry.group_count(), 3);
}

#[test]
fn test_duplicate_name_error() {
    let mut registry = GroupRegistry::new();
    registry.register_group(Some("name".to_string())).unwrap();
    let result = registry.register_group(Some("name".to_string()));
    assert!(matches!(
        result,
        Err(GroupRegistryError::DuplicateGroupName(_))
    ));
}

#[test]
fn test_validate_backref_name() {
    let mut registry = GroupRegistry::new();
    registry.register_group(Some("name".to_string())).unwrap();

    assert_eq!(registry.validate_backref_name("name").unwrap(), 1);
    assert!(matches!(
        registry.validate_backref_name("unknown"),
        Err(GroupRegistryError::UndefinedBackreference(_))
    ));
}

#[test]
fn test_validate_backref_number() {
    let mut registry = GroupRegistry::new();
    registry.register_group(None).unwrap();
    registry.register_group(None).unwrap();

    assert_eq!(registry.validate_backref_number(1).unwrap(), 1);
    assert_eq!(registry.validate_backref_number(2).unwrap(), 2);
    assert!(matches!(
        registry.validate_backref_number(3),
        Err(GroupRegistryError::InvalidBackreference(3))
    ));
    assert!(matches!(
        registry.validate_backref_number(0),
        Err(GroupRegistryError::InvalidBackreference(0))
    ));
}

#[test]
fn test_get_by_index() {
    let mut registry = GroupRegistry::new();
    registry.register_group(Some("name".to_string())).unwrap();

    let info = registry.get_by_index(1).unwrap();
    assert_eq!(info.index, 1);
    assert_eq!(info.name, Some("name".to_string()));
    assert!(info.is_named);
}

#[test]
fn test_collector_with_simple_groups() {

    let expr = Expr::sequence(vec![
        Expr::group(Expr::literal('a')),
        Expr::named_group("second", Expr::literal('b')),
    ]);

    let mut registry = GroupRegistry::new();
    GroupCollector::collect(&expr, &mut registry).unwrap();

    assert_eq!(registry.group_count(), 2);
    assert!(registry.get_by_index(1).is_some());
    assert_eq!(registry.get_by_name("second"), Some(2));
}

#[test]
fn test_collector_with_nested_groups() {

    let expr = Expr::named_group(
        "outer",
        Expr::sequence(vec![
            Expr::literal('a'),
            Expr::named_group("inner", Expr::literal('b')),
        ]),
    );

    let mut registry = GroupRegistry::new();
    GroupCollector::collect(&expr, &mut registry).unwrap();

    assert_eq!(registry.group_count(), 2);
    assert_eq!(registry.get_by_name("outer"), Some(1));
    assert_eq!(registry.get_by_name("inner"), Some(2));
}

#[test]
fn test_collector_with_duplicate_names() {

    let expr = Expr::sequence(vec![
        Expr::named_group("dup", Expr::literal('a')),
        Expr::named_group("dup", Expr::literal('b')),
    ]);

    let mut registry = GroupRegistry::new();
    let result = GroupCollector::collect(&expr, &mut registry);
    assert!(matches!(
        result,
        Err(GroupRegistryError::DuplicateGroupName(_))
    ));
}
