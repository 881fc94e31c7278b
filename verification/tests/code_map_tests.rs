use currency_api::code_map::CodeMap;

#[test]
fn insert_keeps_keys_sorted_and_unique() {
    let mut m: CodeMap<u32> = CodeMap::new();
    for (k, v) in [("usd", 1), ("eur", 2), ("btc", 3), ("usd", 4), ("aed", 5), ("zar", 6)] {
        m.insert(k.to_string(), v);
    }
    let keys: Vec<&str> = m.entries().iter().map(|(k, _)| k.as_str()).collect();
    assert_eq!(keys, vec!["aed", "btc", "eur", "usd", "zar"]);
    assert_eq!(m.get("usd"), Some(&4));
    assert_eq!(m.len(), 5);
}

#[test]
fn get_after_insert() {
    let mut m: CodeMap<String> = CodeMap::new();
    assert!(m.is_empty());
    assert_eq!(m.get("eur"), None);
    m.insert("eur".to_string(), "Euro".to_string());
    assert_eq!(m.get("eur"), Some(&"Euro".to_string()));
    assert!(m.contains_key("eur"));
    assert!(!m.contains_key("Eur"));
    assert!(!m.is_empty());
}

#[test]
fn order_is_by_code_point() {
    let mut m: CodeMap<u8> = CodeMap::new();
    for k in ["b", "B", "ab", "a", "", "é"] {
        m.insert(k.to_string(), 0);
    }
    let keys: Vec<String> = m.into_entries().into_iter().map(|(k, _)| k).collect();
    assert_eq!(keys, vec!["", "B", "a", "ab", "b", "é"]);
}
