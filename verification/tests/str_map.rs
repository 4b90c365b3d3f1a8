use markov_telegram_bot::str_map::StrMap;

#[test]
fn a_map_keeps_its_entries_in_order() {
    let mut map: StrMap<i64> = StrMap::new();
    assert_eq!(0, map.len());
    assert_eq!(None, map.find("a"));
    map.push_new("a".to_string(), 1);
    map.push_new("b".to_string(), 2);
    assert_eq!(None, map.insert("c".to_string(), 3));
    assert_eq!(Some(2), map.insert("b".to_string(), 20));
    assert_eq!(3, map.len());
    assert_eq!(Some(0), map.find("a"));
    assert_eq!(Some(1), map.find("b"));
    assert_eq!(Some(2), map.find("c"));
    assert_eq!(None, map.find("d"));
    assert_eq!("b", map.key_at(1));
    assert_eq!(20, *map.value_at(1));
    assert_eq!(1, map.replace_value(0, 10));
    assert_eq!(10, *map.value_at(0));
    assert_eq!(("a".to_string(), 10), map.remove_at(0));
    assert_eq!(2, map.len());
    assert_eq!(Some(0), map.find("b"));
    assert_eq!(Some(1), map.find("c"));
    assert_eq!(None, map.find("a"));
}
