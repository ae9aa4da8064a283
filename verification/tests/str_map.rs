use rustengan::str_map::StrMap;

fn key(s: &str) -> String {
    s.to_string()
}

#[test]
fn new_map_is_empty() {
    let m: StrMap<u8> = StrMap::new();
    assert_eq!(m.len(), 0);
    assert!(!m.contains_key(&key("a")));
    assert_eq!(m.get(&key("a")), None);
    assert!(m.as_entries().is_empty());
}

#[test]
fn insert_then_get() {
    let mut m = StrMap::new();
    m.insert(key("a"), 1);
    m.insert(key("b"), 2);
    assert_eq!(m.len(), 2);
    assert_eq!(m.get(&key("a")), Some(&1));
    assert_eq!(m.get(&key("b")), Some(&2));
    assert_eq!(m.get(&key("c")), None);
    assert_eq!(m.position(&key("b")), Some(1));
    assert_eq!(m.position(&key("c")), None);
}

#[test]
fn insert_replaces_the_value_under_a_key() {
    let mut m = StrMap::new();
    m.insert(key("a"), 1);
    m.insert(key("b"), 2);
    m.insert(key("a"), 3);
    assert_eq!(m.len(), 2);
    assert_eq!(m.get(&key("a")), Some(&3));
    assert_eq!(m.get(&key("b")), Some(&2));
}

#[test]
fn remove_takes_the_key_out() {
    let mut m = StrMap::new();
    m.insert(key("a"), 1);
    m.insert(key("b"), 2);
    m.insert(key("c"), 3);
    assert_eq!(m.remove(&key("b")), Some(2));
    assert_eq!(m.remove(&key("b")), None);
    assert_eq!(m.len(), 2);
    assert_eq!(m.get(&key("a")), Some(&1));
    assert_eq!(m.get(&key("c")), Some(&3));
    assert!(!m.contains_key(&key("b")));
}

#[test]
fn from_entries_lets_the_later_entry_count() {
    let m = StrMap::from_entries(vec![(key("a"), 1), (key("b"), 2), (key("a"), 3)]);
    assert_eq!(m.len(), 2);
    assert_eq!(m.get(&key("a")), Some(&3));
    assert_eq!(m.get(&key("b")), Some(&2));
}

#[test]
fn from_entries_keeps_the_order_of_first_appearance() {
    let m = StrMap::from_entries(vec![(key("x"), 1), (key("y"), 2), (key("z"), 3)]);
    let keys: Vec<&str> = m.as_entries().iter().map(|e| e.0.as_str()).collect();
    assert_eq!(keys, vec!["x", "y", "z"]);
}

#[test]
fn into_entries_has_each_key_once() {
    let m = StrMap::from_entries(vec![(key("a"), 1), (key("a"), 2), (key("b"), 5)]);
    let mut entries = m.into_entries();
    entries.sort();
    assert_eq!(entries, vec![(key("a"), 2), (key("b"), 5)]);
}

#[test]
fn clone_holds_the_same_entries() {
    let mut m = StrMap::new();
    m.insert(key("a"), 10i64);
    m.insert(key("b"), -4i64);
    let mut copy = m.clone();
    assert_eq!(copy.get(&key("a")), Some(&10));
    assert_eq!(copy.get(&key("b")), Some(&-4));
    assert_eq!(copy.len(), 2);
    copy.insert(key("a"), 11);
    assert_eq!(m.get(&key("a")), Some(&10));
}

#[test]
fn keys_are_compared_as_whole_strings() {
    let mut m = StrMap::new();
    m.insert(key("n1"), 1);
    m.insert(key("n10"), 2);
    m.insert(key(""), 3);
    assert_eq!(m.get(&key("n1")), Some(&1));
    assert_eq!(m.get(&key("n10")), Some(&2));
    assert_eq!(m.get(&key("")), Some(&3));
    assert_eq!(m.get(&key("n")), None);
}
