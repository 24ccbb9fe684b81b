use lean_to::text_map::TextMap;

#[test]
fn a_map_keeps_one_value_for_each_key() {
    let mut m: TextMap<u32> = TextMap::new();
    assert!(m.get("a").is_none());
    assert_eq!(m.insert("a".to_string(), 1), None);
    assert_eq!(m.insert("b".to_string(), 2), None);
    assert_eq!(m.insert("a".to_string(), 3), Some(1));
    assert_eq!(m.get("a"), Some(&3));
    assert_eq!(m.get("b"), Some(&2));
    assert!(m.contains_key("b") && !m.contains_key("c"));
    assert_eq!(m.remove("c"), None);
    assert_eq!(m.remove("a"), Some(3));
    assert_eq!(m.remove("a"), None);
    assert_eq!(m.get("b"), Some(&2));
}

#[test]
fn a_map_can_be_emptied() {
    let mut m: TextMap<u32> = TextMap::new();
    for (i, k) in ["x", "y", "z", "x"].iter().enumerate() {
        m.insert(k.to_string(), i as u32);
    }
    let mut all = m.drain();
    all.sort();
    assert_eq!(
        all,
        vec![("x".to_string(), 3), ("y".to_string(), 1), ("z".to_string(), 2)]
    );
    assert!(m.drain().is_empty());
    assert!(!m.contains_key("x"));
}
