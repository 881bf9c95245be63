use bimultimap::BiMultiMap;
use std::collections::BTreeSet;

fn held(v: &Vec<i32>) -> BTreeSet<i32> {
    v.iter().cloned().collect()
}

fn wanted(items: &[i32]) -> BTreeSet<i32> {
    items.iter().cloned().collect()
}

#[test]
pub fn set_left_basic() {
    let mut map = BiMultiMap::<i32, i32>::new();

    map.set_left(0, vec![1, 2, 3]);

    assert_eq!(held(map.get_left(&0).unwrap()), wanted(&[1, 2, 3]));

    assert_eq!(map.get_right(&0), None);
    assert_eq!(held(map.get_right(&1).unwrap()), wanted(&[0]));
    assert_eq!(held(map.get_right(&2).unwrap()), wanted(&[0]));
    assert_eq!(held(map.get_right(&3).unwrap()), wanted(&[0]));
}

#[test]
pub fn set_left_setting_already_existing_values() {
    let mut map = BiMultiMap::<i32, i32>::new();

    map.insert(0, 4);
    map.set_left(0, vec![1, 2, 3]);

    assert_eq!(held(map.get_left(&0).unwrap()), wanted(&[1, 2, 3]));

    assert_eq!(map.get_right(&0), None);
    assert_eq!(held(map.get_right(&1).unwrap()), wanted(&[0]));
    assert_eq!(held(map.get_right(&2).unwrap()), wanted(&[0]));
    assert_eq!(held(map.get_right(&3).unwrap()), wanted(&[0]));
    assert_eq!(map.get_right(&4), None);
}

#[test]
pub fn set_left_multiple_both_side_keys() {
    let mut map = BiMultiMap::<i32, i32>::new();

    map.insert(0, 2);
    map.insert(0, 3);
    map.insert(1, 2);
    map.insert(1, 3);
    map.set_left(0, vec![4]);

    assert_eq!(held(map.get_left(&0).unwrap()), wanted(&[4]));
    assert_eq!(held(map.get_left(&1).unwrap()), wanted(&[2, 3]));

    assert_eq!(held(map.get_right(&2).unwrap()), wanted(&[1]));
    assert_eq!(held(map.get_right(&3).unwrap()), wanted(&[1]));
    assert_eq!(held(map.get_right(&4).unwrap()), wanted(&[0]));
}

#[test]
pub fn set_right_basic() {
    let mut map = BiMultiMap::<i32, i32>::new();

    map.set_right(0, vec![1, 2, 3]);

    assert_eq!(held(map.get_right(&0).unwrap()), wanted(&[1, 2, 3]));

    assert_eq!(map.get_left(&0), None);
    assert_eq!(held(map.get_left(&1).unwrap()), wanted(&[0]));
    assert_eq!(held(map.get_left(&2).unwrap()), wanted(&[0]));
    assert_eq!(held(map.get_left(&3).unwrap()), wanted(&[0]));
}

#[test]
pub fn set_right_setting_already_existing_values() {
    let mut map = BiMultiMap::<i32, i32>::new();

    map.insert(4, 0);
    map.set_right(0, vec![1, 2, 3]);

    assert_eq!(held(map.get_right(&0).unwrap()), wanted(&[1, 2, 3]));

    assert_eq!(map.get_left(&0), None);
    assert_eq!(held(map.get_left(&1).unwrap()), wanted(&[0]));
    assert_eq!(held(map.get_left(&2).unwrap()), wanted(&[0]));
    assert_eq!(held(map.get_left(&3).unwrap()), wanted(&[0]));
    assert_eq!(map.get_left(&4), None);
}

#[test]
pub fn set_right_multiple_both_side_keys() {
    let mut map = BiMultiMap::<i32, i32>::new();

    map.insert(2, 0);
    map.insert(3, 0);
    map.insert(2, 1);
    map.insert(3, 1);
    map.set_right(0, vec![4]);

    assert_eq!(held(map.get_right(&0).unwrap()), wanted(&[4]));
    assert_eq!(held(map.get_right(&1).unwrap()), wanted(&[2, 3]));

    assert_eq!(held(map.get_left(&2).unwrap()), wanted(&[1]));
    assert_eq!(held(map.get_left(&3).unwrap()), wanted(&[1]));
    assert_eq!(held(map.get_left(&4).unwrap()), wanted(&[0]));
}

#[test]
pub fn set_left_empty_removes_key() {
    let mut map = BiMultiMap::<i32, i32>::new();

    map.insert(0, 1);
    map.insert(0, 2);
    map.insert(5, 1);
    map.set_left(0, vec![]);

    assert_eq!(map.get_left(&0), None);
    assert_eq!(held(map.get_right(&1).unwrap()), wanted(&[5]));
    assert_eq!(map.get_right(&2), None);
    assert_eq!(map.len(), 1);
}

#[test]
pub fn set_left_empty_on_missing_key() {
    let mut map = BiMultiMap::<i32, i32>::new();

    map.set_left(0, vec![]);

    assert_eq!(map.get_left(&0), None);
    assert_eq!(map.len(), 0);
}

#[test]
pub fn set_right_empty_removes_key() {
    let mut map = BiMultiMap::<i32, i32>::new();

    map.insert(1, 0);
    map.insert(2, 0);
    map.insert(1, 5);
    map.set_right(0, vec![]);

    assert_eq!(map.get_right(&0), None);
    assert_eq!(held(map.get_left(&1).unwrap()), wanted(&[5]));
    assert_eq!(map.get_left(&2), None);
    assert_eq!(map.len(), 1);
}
