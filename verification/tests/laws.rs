use bimultimap::BiMultiMap;
use std::collections::BTreeSet;

fn pair_set(map: &BiMultiMap<u32, u32>) -> BTreeSet<(u32, u32)> {
    map.iter().into_iter().collect()
}

#[test]
fn symmetry_on_concrete_pairs() {
    let mut map = BiMultiMap::<u32, u32>::new();
    map.insert(1, 10);
    map.insert(1, 20);
    map.insert(2, 10);

    for l in 0..4u32 {
        for r in 0..30u32 {
            let in_left = map
                .get_left(&l)
                .map(|b| b.contains(&r))
                .unwrap_or(false);
            let in_right = map
                .get_right(&r)
                .map(|b| b.contains(&l))
                .unwrap_or(false);
            assert_eq!(in_left, in_right);
        }
    }
}

#[test]
fn count_invariant() {
    let mut map = BiMultiMap::<u32, u32>::new();
    assert_eq!(map.len(), 0);
    map.insert(1, 2);
    assert_eq!(map.len(), 1);
    // Inserting an already-present pair never changes the count.
    map.insert(1, 2);
    assert_eq!(map.len(), 1);
    // Removing an absent pair never changes the count.
    assert!(!map.remove(&1, &3));
    assert_eq!(map.len(), 1);
    map.insert(1, 3);
    map.insert(2, 2);
    assert_eq!(map.len(), 3);
    assert!(map.remove(&1, &2));
    assert_eq!(map.len(), 2);
}

#[test]
fn len_counts_entries_not_keys() {
    let map = BiMultiMap::from_iter(vec![('a', 0), ('a', 1), ('b', 1)]);
    assert_eq!(map.len(), 3);
}

#[test]
fn idempotent_insert() {
    let mut once = BiMultiMap::<u32, u32>::new();
    once.insert(1, 2);
    once.insert(3, 4);

    let mut twice = BiMultiMap::<u32, u32>::new();
    twice.insert(1, 2);
    twice.insert(3, 4);
    twice.insert(1, 2);

    assert_eq!(pair_set(&once), pair_set(&twice));
    assert_eq!(once.len(), twice.len());
}

#[test]
fn remove_undoes_insert_of_fresh_pair() {
    let mut map = BiMultiMap::<u32, u32>::new();
    map.insert(1, 2);
    map.insert(3, 4);
    let before = pair_set(&map);
    let len_before = map.len();

    map.insert(5, 6);
    assert!(map.remove(&5, &6));

    assert_eq!(pair_set(&map), before);
    assert_eq!(map.len(), len_before);
}

#[test]
fn remove_does_not_undo_insert_of_present_pair() {
    let mut map = BiMultiMap::<u32, u32>::new();
    map.insert(1, 2);
    map.insert(3, 4);
    let before = pair_set(&map);

    map.insert(1, 2);
    assert!(map.remove(&1, &2));

    assert_ne!(pair_set(&map), before);
}

#[test]
fn set_left_keeps_common_values() {
    let mut map = BiMultiMap::<i32, i32>::new();
    map.insert(0, 1);
    map.insert(0, 2);
    map.insert(7, 2);

    map.set_left(0, vec![2, 3]);

    // 2 was in both the old and the new set: still related, on both sides.
    assert!(map.get_left(&0).unwrap().contains(&2));
    assert!(map.get_right(&2).unwrap().contains(&0));
    assert!(map.get_right(&2).unwrap().contains(&7));
    // 1 was dropped: 0 is gone from its bucket, and the bucket is deleted.
    assert_eq!(map.get_right(&1), None);
    // 3 was added.
    assert!(map.get_left(&0).unwrap().contains(&3));
    assert!(map.get_right(&3).unwrap().contains(&0));
    assert_eq!(map.len(), 3);
}

#[test]
fn scenario_single_pair() {
    let mut map = BiMultiMap::new();
    map.insert("a".to_string(), "b".to_string());
    assert_eq!(map.get_left(&"a".to_string()), Some(&vec!["b".to_string()]));
    assert_eq!(map.get_right(&"b".to_string()), Some(&vec!["a".to_string()]));
}

#[test]
fn scenario_remove_leaves_sibling() {
    let mut map = BiMultiMap::new();
    map.insert("a".to_string(), "b".to_string());
    map.insert("a".to_string(), "c".to_string());
    map.remove(&"a".to_string(), &"b".to_string());
    assert_eq!(map.get_left(&"a".to_string()), Some(&vec!["c".to_string()]));
    assert_eq!(map.get_right(&"b".to_string()), None);
}

#[test]
fn scenario_large_build_unique_pairs() {
    const ITERS: u32 = 10_000;
    let map = BiMultiMap::from_iter((0..ITERS).map(|v| (v, v + 1)).collect());

    let pairs = map.iter();
    assert_eq!(pairs.len(), ITERS as usize);
    let distinct: BTreeSet<(u32, u32)> = pairs.into_iter().collect();
    assert_eq!(distinct.len(), ITERS as usize);
}

#[test]
fn getters_on_vec_form() {
    let mut map = BiMultiMap::<u32, u32>::new();
    map.insert(1, 10);
    map.insert(1, 20);

    let mut lefts: Vec<u32> = map.get_left_vec(&1).unwrap().into_iter().cloned().collect();
    lefts.sort();
    assert_eq!(lefts, vec![10, 20]);

    let rights: Vec<u32> = map.get_right_vec(&10).unwrap().into_iter().cloned().collect();
    assert_eq!(rights, vec![1]);

    assert_eq!(map.get_left_vec(&2), None);
    assert_eq!(map.get_right_vec(&2), None);

    let one = map.get_one_left(&1).unwrap();
    assert!(*one == 10 || *one == 20);
    assert_eq!(map.get_one_right(&20), Some(&1));
    assert_eq!(map.get_one_left(&9), None);
}

#[test]
fn right_values_lists_right_keys() {
    let mut map = BiMultiMap::<u32, u32>::new();
    map.insert(1, 10);
    map.insert(2, 10);
    map.insert(1, 20);

    let mut keys: Vec<u32> = map.right_values().into_iter().cloned().collect();
    keys.sort();
    assert_eq!(keys, vec![10, 20]);
}

#[test]
fn default_is_empty() {
    let map: BiMultiMap<u32, u32> = Default::default();
    assert_eq!(map.len(), 0);
    assert_eq!(map.get_left(&0), None);
}

#[test]
fn remove_right_mirror() {
    let mut map = BiMultiMap::new();
    map.insert("a".to_string(), "x".to_string());
    map.insert("b".to_string(), "x".to_string());
    map.insert("a".to_string(), "y".to_string());

    let removed = map.remove_left(&"a".to_string());
    let removed_set: BTreeSet<String> = removed.unwrap().into_iter().collect();
    let wanted: BTreeSet<String> = ["x", "y"].iter().map(|s| s.to_string()).collect();
    assert_eq!(removed_set, wanted);

    let mut map2 = BiMultiMap::new();
    map2.insert("x".to_string(), "a".to_string());
    map2.insert("x".to_string(), "b".to_string());
    map2.insert("y".to_string(), "a".to_string());

    let removed2 = map2.remove_right(&"a".to_string());
    let removed2_set: BTreeSet<String> = removed2.unwrap().into_iter().collect();
    let wanted2: BTreeSet<String> = ["x", "y"].iter().map(|s| s.to_string()).collect();
    assert_eq!(removed2_set, wanted2);
    assert_eq!(map2.get_right(&"a".to_string()), None);
    assert_eq!(map2.get_left(&"x".to_string()), Some(&vec!["b".to_string()]));
    assert_eq!(map2.len(), 1);
}

#[test]
fn from_iter_empty() {
    let map = BiMultiMap::<u32, u32>::from_iter(vec![]);
    assert_eq!(map.len(), 0);
    assert!(map.iter().is_empty());
}

#[test]
fn len_tracks_bulk_removal() {
    let mut map = BiMultiMap::<u32, u32>::new();
    map.insert(1, 10);
    map.insert(1, 20);
    map.insert(2, 10);
    assert_eq!(map.len(), 3);

    map.remove_left(&1);
    assert_eq!(map.len(), 1);

    map.remove_right(&10);
    assert_eq!(map.len(), 0);
}
