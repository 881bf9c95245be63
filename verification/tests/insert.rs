use bimultimap::BiMultiMap;
use std::collections::BTreeSet;

fn held(v: &Vec<String>) -> BTreeSet<String> {
    v.iter().cloned().collect()
}

fn wanted(items: &[&str]) -> BTreeSet<String> {
    items.iter().map(|s| s.to_string()).collect()
}

#[test]
pub fn basic_insert() {
    let mut map = BiMultiMap::new();

    map.insert("a".to_string(), "b".to_string());

    assert_eq!(held(map.get_left(&"a".to_string()).unwrap()), wanted(&["b"]))
}

#[test]
pub fn multiple_left_insert() {
    let mut map = BiMultiMap::new();

    map.insert("a".to_string(), "b".to_string());
    map.insert("b".to_string(), "b".to_string());
    map.insert("c".to_string(), "b".to_string());
    map.insert("d".to_string(), "b".to_string());

    assert_eq!(held(map.get_left(&"a".to_string()).unwrap()), wanted(&["b"]));
    assert_eq!(held(map.get_left(&"b".to_string()).unwrap()), wanted(&["b"]));
    assert_eq!(held(map.get_left(&"c".to_string()).unwrap()), wanted(&["b"]));
    assert_eq!(held(map.get_left(&"d".to_string()).unwrap()), wanted(&["b"]));
    assert_eq!(
        held(map.get_right(&"b".to_string()).unwrap()),
        wanted(&["a", "b", "c", "d"])
    );
}

#[test]
pub fn multiple_right_insert() {
    let mut map = BiMultiMap::new();

    map.insert("b".to_string(), "a".to_string());
    map.insert("b".to_string(), "b".to_string());
    map.insert("b".to_string(), "c".to_string());
    map.insert("b".to_string(), "d".to_string());

    assert_eq!(held(map.get_right(&"a".to_string()).unwrap()), wanted(&["b"]));
    assert_eq!(held(map.get_right(&"b".to_string()).unwrap()), wanted(&["b"]));
    assert_eq!(held(map.get_right(&"c".to_string()).unwrap()), wanted(&["b"]));
    assert_eq!(held(map.get_right(&"d".to_string()).unwrap()), wanted(&["b"]));
    assert_eq!(
        held(map.get_left(&"b".to_string()).unwrap()),
        wanted(&["a", "b", "c", "d"])
    );
}

#[test]
pub fn multiple_insert_right_and_left() {
    let mut map = BiMultiMap::new();

    map.insert("a".to_string(), "a".to_string());
    map.insert("a".to_string(), "b".to_string());
    map.insert("b".to_string(), "a".to_string());
    map.insert("b".to_string(), "b".to_string());

    assert_eq!(held(map.get_right(&"b".to_string()).unwrap()), wanted(&["a", "b"]));
    assert_eq!(held(map.get_right(&"a".to_string()).unwrap()), wanted(&["a", "b"]));
    assert_eq!(held(map.get_left(&"b".to_string()).unwrap()), wanted(&["a", "b"]));
    assert_eq!(held(map.get_left(&"a".to_string()).unwrap()), wanted(&["a", "b"]));
}

#[test]
pub fn same_value_insert() {
    let mut map = BiMultiMap::new();

    map.insert("a".to_string(), "a".to_string());
    map.insert("a".to_string(), "a".to_string());
    map.insert("a".to_string(), "a".to_string());
    map.insert("a".to_string(), "a".to_string());

    assert_eq!(held(map.get_right(&"a".to_string()).unwrap()), wanted(&["a"]));
}
