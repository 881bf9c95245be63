use bimultimap::BiMultiMap;

#[test]
pub fn into_iter_basic() {
    let mut map = BiMultiMap::new();

    map.insert("a".to_string(), "b".to_string());
    map.insert("a".to_string(), "c".to_string());
    map.insert("b".to_string(), "b".to_string());

    let mut imap = map.into_iter().into_iter();

    assert!(imap.next().is_some());
    assert!(imap.next().is_some());
    assert!(imap.next().is_some());
    assert!(imap.next().is_none());
}

#[test]
pub fn into_iter_no_value() {
    let map = BiMultiMap::<String, String>::new();

    let mut imap = map.into_iter().into_iter();

    assert!(imap.next().is_none());
}

#[test]
pub fn into_iter_lot_of_values() {
    let mut map = BiMultiMap::new();

    const ITERS: usize = 10_000;

    for i in 0..ITERS {
        map.insert(i, 0);
    }

    let mut imap = map.into_iter().into_iter();

    for _ in 0..ITERS {
        assert!(imap.next().is_some());
    }

    assert!(imap.next().is_none());
}

#[test]
pub fn into_iter_one_value_test() {
    let mut map = BiMultiMap::new();

    map.insert("a".to_string(), "b".to_string());

    let mut imap = map.into_iter().into_iter();

    assert_eq!(imap.next(), Some(("a".to_string(), "b".to_string())));
}

#[test]
pub fn iter_ref_basic() {
    let mut map = BiMultiMap::new();

    map.insert("a".to_string(), "b".to_string());
    map.insert("a".to_string(), "c".to_string());
    map.insert("b".to_string(), "b".to_string());

    let pairs = map.iter_ref();
    let mut imap = pairs.into_iter();

    assert!(imap.next().is_some());
    assert!(imap.next().is_some());
    assert!(imap.next().is_some());
    assert!(imap.next().is_none());
}

#[test]
pub fn iter_ref_no_value() {
    let map = BiMultiMap::<String, String>::new();

    let pairs = map.iter_ref();
    let mut imap = pairs.into_iter();

    assert!(imap.next().is_none());
}

#[test]
pub fn iter_ref_lot_of_values() {
    let mut map = BiMultiMap::new();

    const ITERS: usize = 10_000;

    for i in 0..ITERS {
        map.insert(i, 0);
    }

    let pairs = map.iter_ref();
    let mut imap = pairs.into_iter();

    for _ in 0..ITERS {
        assert!(imap.next().is_some());
    }

    assert!(imap.next().is_none());
}

#[test]
pub fn iter_ref_one_value_test() {
    let mut map = BiMultiMap::new();

    map.insert("a".to_string(), "b".to_string());

    let pairs = map.iter_ref();
    let mut imap = pairs.into_iter();

    assert_eq!(imap.next(), Some((&"a".to_string(), &"b".to_string())));
}

#[test]
pub fn iter_basic() {
    let mut map = BiMultiMap::new();

    map.insert("a".to_string(), "b".to_string());
    map.insert("a".to_string(), "c".to_string());
    map.insert("b".to_string(), "b".to_string());

    let mut imap = map.iter().into_iter();

    assert!(imap.next().is_some());
    assert!(imap.next().is_some());
    assert!(imap.next().is_some());
    assert!(imap.next().is_none());
}

#[test]
pub fn iter_no_value() {
    let map = BiMultiMap::<String, String>::new();

    let mut imap = map.iter().into_iter();

    assert!(imap.next().is_none());
}

#[test]
pub fn iter_lot_of_values() {
    let mut map = BiMultiMap::new();

    const ITERS: usize = 10_000;

    for i in 0..ITERS {
        map.insert(i, 0);
    }

    let mut imap = map.iter().into_iter();

    for _ in 0..ITERS {
        assert!(imap.next().is_some());
    }

    assert!(imap.next().is_none());
}

#[test]
pub fn iter_one_value_test() {
    let mut map = BiMultiMap::new();

    map.insert("a".to_string(), "b".to_string());

    let mut imap = map.iter().into_iter();

    assert_eq!(imap.next(), Some(("a".to_string(), "b".to_string())));
}

#[test]
fn one_iter() {
    let map = BiMultiMap::from_iter(vec![(0, 1)]);

    assert_eq!(map.get_right(&1), Some(&vec![0]));
    assert_eq!(map.get_left(&0), Some(&vec![1]));
}

#[test]
fn multiple_iter() {
    let map = BiMultiMap::from_iter(vec![(0, 1), (1, 2), (2, 1), (1, 1)]);

    let mut left_0 = map.get_left(&0).unwrap().clone();
    left_0.sort();
    assert_eq!(left_0, vec![1]);
    let mut left_1 = map.get_left(&1).unwrap().clone();
    left_1.sort();
    assert_eq!(left_1, vec![1, 2]);
    let mut left_2 = map.get_left(&2).unwrap().clone();
    left_2.sort();
    assert_eq!(left_2, vec![1]);

    let mut right_1 = map.get_right(&1).unwrap().clone();
    right_1.sort();
    assert_eq!(right_1, vec![0, 1, 2]);
    let mut right_2 = map.get_right(&2).unwrap().clone();
    right_2.sort();
    assert_eq!(right_2, vec![1]);
}

#[test]
fn reverse_left_right() {
    let map = BiMultiMap::from_iter([(0, 1)].into_iter().map(|(a, b)| (b, a)).collect());
    assert_eq!(map.get_left(&1), Some(&vec![0]));
    assert_eq!(map.get_right(&0), Some(&vec![1]));
}

#[test]
fn repeating() {
    let map = BiMultiMap::from_iter(vec![(0, 0), (0, 0)]);
    assert_eq!(map.get_left(&0), Some(&vec![0]));
    assert_eq!(map.get_right(&0), Some(&vec![0]));
}

#[test]
fn from_iter_lot_of_values() {
    const ITERS: u32 = 10_000;
    let map = BiMultiMap::from_iter((0..ITERS).map(|v| (v, v)).collect());

    let mut imap = map.iter().into_iter();

    for _ in 0..ITERS {
        assert!(imap.next().is_some());
    }

    assert!(imap.next().is_none());
}
