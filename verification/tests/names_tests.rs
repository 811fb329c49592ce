use qams::names::NameMap;

#[test]
fn insert_then_get_reads_back() {
    let mut m: NameMap<u32> = NameMap::new();
    assert_eq!(m.len(), 0);
    assert_eq!(m.get("x"), None);
    m.insert("x".to_string(), 1);
    m.insert("y".to_string(), 2);
    assert_eq!(m.get("x"), Some(&1));
    m.insert("x".to_string(), 3);
    assert_eq!(m.get("x"), Some(&3));
    assert_eq!(m.len(), 2);
    assert!(m.contains_key("y"));
    assert!(!m.contains_key("z"));
    assert_eq!(m.position("y"), Some(1));
    let keys: Vec<&str> = m.entries().iter().map(|(k, _)| k.as_str()).collect();
    assert_eq!(keys, vec!["x", "y"]);
}

#[test]
fn from_pairs_later_wins() {
    let m = NameMap::from_pairs(vec![
        ("a".to_string(), 1u32),
        ("b".to_string(), 2),
        ("a".to_string(), 3),
    ]);
    assert_eq!(m.len(), 2);
    assert_eq!(m.get("a"), Some(&3));
    assert_eq!(m.get("b"), Some(&2));
    assert_eq!(m.position("a"), Some(0));
}
