use leap_lang::stringmap::StringMap;

#[test]
fn test_string_map() {
    let mut map: StringMap<String> = StringMap::new();
    assert!(map.get("a").is_none());
    map.insert("a".to_owned(), "1".to_owned());
    map.insert("b".to_owned(), "2".to_owned());
    assert_eq!(map.get("a").unwrap(), "1");
    assert_eq!(map.get("b").unwrap(), "2");
    // a later entry takes the place of an earlier one with the same key
    map.insert("a".to_owned(), "3".to_owned());
    assert_eq!(map.get("a").unwrap(), "3");
    assert_eq!(map.get("b").unwrap(), "2");
    assert!(map.get("").is_none());
}
