use kelpy_pm::deps::Dependencies;

#[test]
fn insert_then_get_gives_the_value() {
    let mut d = Dependencies::new();
    assert!(d.is_empty());
    d.insert("a".to_string(), "1".to_string());
    d.insert("b".to_string(), "2".to_string());
    assert_eq!(d.get("a"), Some(&"1".to_string()));
    assert_eq!(d.get("b"), Some(&"2".to_string()));
    assert_eq!(d.get("c"), None);
    assert!(d.contains_key("a"));
    assert!(!d.contains_key("c"));
    assert_eq!(d.len(), 2);
}

#[test]
fn insert_existing_name_replaces_in_place() {
    let mut d = Dependencies::new();
    d.insert("a".to_string(), "1".to_string());
    d.insert("b".to_string(), "2".to_string());
    d.insert("a".to_string(), "3".to_string());
    assert_eq!(d.len(), 2);
    assert_eq!(d.get("a"), Some(&"3".to_string()));
    assert_eq!(d.get("b"), Some(&"2".to_string()));
    assert_eq!(d.entries()[0], ("a".to_string(), "3".to_string()));
}
