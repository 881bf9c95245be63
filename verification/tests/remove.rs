use bimultimap::BiMultiMap;
use std::collections::BTreeSet;

fn held(v: &Vec<String>) -> BTreeSet<String> {
    v.iter().cloned().collect()
}

fn owned(v: Vec<String>) -> BTreeSet<String> {
    v.into_iter().collect()
}

fn wanted(items: &[&str]) -> BTreeSet<String> {
    items.iter().map(|s| s.to_string()).collect()
}

#[test]
pub fn basic_remove() {
    let mut map = BiMultiMap::new();

    map.insert("a".to_string(), "b".to_string());
    map.remove(&"a".to_string(), &"b".to_string());

    assert_eq!(map.get_left(&"a".to_string()), None);
    assert_eq!(map.get_right(&"b".to_string()), None);
}

#[test]
pub fn remove_with_some_result() {
    let mut map = BiMultiMap::new();

    map.insert("a".to_string(), "b".to_string());
    map.insert("a".to_string(), "c".to_string());
    map.remove(&"a".to_string(), &"b".to_string());

    assert_eq!(held(map.get_left(&"a".to_string()).unwrap()), wanted(&["c"]));
}

#[test]
pub fn remove_with_more_results() {
    let mut map = BiMultiMap::new();

    map.insert("a".to_string(), "b".to_string());
    map.insert("a".to_string(), "c".to_string());
    map.insert("a".to_string(), "d".to_string());
    map.insert("a".to_string(), "e".to_string());

    map.remove(&"a".to_string(), &"b".to_string());
    map.remove(&"a".to_string(), &"d".to_string());

    assert_eq!(held(map.get_left(&"a".to_string()).unwrap()), wanted(&["c", "e"]));
}

#[test]
pub fn remove_until_none() {
    let mut map = BiMultiMap::new();

    map.insert("a".to_string(), "b".to_string());
    map.insert("a".to_string(), "c".to_string());
    map.insert("b".to_string(), "b".to_string());
    map.insert("b".to_string(), "c".to_string());

    assert_eq!(held(map.get_left(&"a".to_string()).unwrap()), wanted(&["b", "c"]));

    map.remove(&"a".to_string(), &"b".to_string());
    map.remove(&"a".to_string(), &"c".to_string());

    assert_eq!(map.get_left(&"a".to_string()), None,);
    assert_eq!(held(map.get_left(&"b".to_string()).unwrap()), wanted(&["b", "c"]));
}

#[test]
pub fn remove_left_basic_remove() {
    let mut map = BiMultiMap::new();

    map.insert("a".to_string(), "b".to_string());
    assert_eq!(map.get_one_left(&"a".to_string()), Some(&"b".to_string()));
    assert_eq!(map.get_one_right(&"b".to_string()), Some(&"a".to_string()));

    let removed = map.remove_left(&"a".to_string());

    assert_eq!(owned(removed.unwrap()), wanted(&["b"]));

    assert_eq!(map.get_left(&"a".to_string()), None);
    assert_eq!(map.get_right(&"b".to_string()), None);
}

#[test]
pub fn multiple_rights() {
    let mut map = BiMultiMap::new();

    map.insert("a".to_string(), "b".to_string());
    map.insert("a".to_string(), "c".to_string());

    let removed = map.remove_left(&"a".to_string());

    assert_eq!(owned(removed.unwrap()), wanted(&["b", "c"]));

    assert_eq!(map.get_left(&"a".to_string()), None);
}

#[test]
pub fn left_and_rights() {
    let mut map = BiMultiMap::new();

    map.insert("a".to_string(), "b".to_string());
    map.insert("a".to_string(), "c".to_string());
    map.insert("b".to_string(), "b".to_string());
    map.insert("b".to_string(), "c".to_string());

    let removed = map.remove_left(&"a".to_string());

    assert_eq!(owned(removed.unwrap()), wanted(&["b", "c"]));

    assert_eq!(map.get_left(&"a".to_string()), None);

    assert_eq!(held(map.get_left(&"b".to_string()).unwrap()), wanted(&["b", "c"]));
}

#[test]
pub fn no_removed_values() {
    let mut map = BiMultiMap::new();

    map.insert("a".to_string(), "_".to_string());
    map.insert("b".to_string(), "_".to_string());
    map.insert("c".to_string(), "_".to_string());

    assert_eq!(map.remove_left(&"d".to_string()), None)
}
