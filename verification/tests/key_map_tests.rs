use bevy_spacetimedb::key_map::KeyMap;

#[test]
fn bindings_are_found_and_counted() {
    let mut m: KeyMap<String> = KeyMap::new();
    assert_eq!(m.len(), 0);
    assert!(!m.contains_key(1));

    m.insert(1, "one".to_string());
    m.insert(2, "two".to_string());
    assert_eq!(m.len(), 2);
    assert!(m.contains_key(1));
    assert_eq!(m.get(1).map(|v| v.as_str()), Some("one"));
    assert_eq!(m.get(3), None);
}

#[test]
fn a_later_insert_replaces_the_earlier_binding() {
    let mut m: KeyMap<String> = KeyMap::new();
    m.insert(1, "first".to_string());
    m.insert(1, "second".to_string());
    assert_eq!(m.len(), 1);
    assert_eq!(m.get(1).map(|v| v.as_str()), Some("second"));
}

#[test]
fn remove_returns_the_bound_value_once() {
    let mut m: KeyMap<String> = KeyMap::new();
    m.insert(1, "one".to_string());
    assert_eq!(m.remove(1), Some("one".to_string()));
    assert_eq!(m.remove(1), None);
    assert_eq!(m.len(), 0);
}

#[test]
fn into_pairs_hands_out_each_binding() {
    let mut m: KeyMap<u32> = KeyMap::new();
    m.insert(1, 10);
    m.insert(2, 20);
    m.insert(1, 11);
    let mut pairs = m.into_pairs();
    pairs.sort();
    assert_eq!(pairs, vec![(1, 11), (2, 20)]);
}
