use sicht::birelational_map::BirelationalMap;
use sicht::birelational_map::map::{ItemsMut, Side};

type TestMap = BirelationalMap;

#[test]
fn birelational_map_inserting() {
    let mut map = TestMap::new();
    map.insert(10usize, 20usize);

    let value = *map.get(10usize).unwrap()[0];
    assert_eq!(value, 20);

    let key = *map.get_value(20usize).unwrap()[0];
    assert_eq!(key, 10);
}

#[test]
fn birelational_map_inserting_twice() {
    let mut map = TestMap::new();
    map.insert(10usize, 20usize);
    map.insert(10usize, 30usize);

    let value = map.get(10usize).unwrap();
    assert_eq!(*value[0], 20);
    assert_eq!(*value[1], 30);

    let key = *map.get_value(30usize).unwrap()[0];
    assert_eq!(key, 10);

    let key = *map.get_value(20usize).unwrap()[0];
    assert_eq!(key, 10);
}

#[test]
fn birelational_map_removal() {
    let mut map = TestMap::new();
    map.insert(10usize, 20usize);
    map.insert(10usize, 30usize);

    map.remove(10usize, 30usize);

    let values = map.get(10usize).unwrap();
    assert_eq!(values.len(), 1);
    assert_eq!(*values[0], 20);
}

#[test]
fn mutable_value_lookup() {
    let mut map = TestMap::new();
    map.insert(10usize, 20usize);
    map.insert(10usize, 30usize);

    let mut values = map.get_mut(10usize).unwrap();
    values.set(0, 25);
    values.set(1, 35);
    drop(values);

    let values = map.get_by_id(10usize).unwrap();
    assert_eq!(*values[0], 25);
    assert_eq!(*values[1], 35);
}

#[test]
fn mutable_key_lookup() {
    let mut map = TestMap::new();
    map.insert(10usize, 20usize);

    let mut keys = map.get_value_by_id_mut(20usize).unwrap();
    keys.set(0, 11);
    drop(keys);

    let keys = map.get_value(20usize).unwrap();
    assert_eq!(*keys[0], 11);
}

#[test]
fn map_unknown_ids_give_none() {
    let mut map = TestMap::new();
    assert!(map.get(1).is_none());
    assert!(map.get_value(1).is_none());
    assert!(map.get_mut(1).is_none());
    assert!(map.get_value_mut(1).is_none());
    map.insert(1, 2);
    assert!(map.get(2).is_none());
    assert!(map.get_value(1).is_none());
}

#[test]
fn map_same_pair_is_recorded_once() {
    let mut map = TestMap::new();
    map.insert(1, 2);
    map.insert(1, 2);
    assert_eq!(map.get(1).unwrap().len(), 1);
    assert_eq!(map.get_value(2).unwrap().len(), 1);
}

#[test]
fn map_relations_are_symmetric() {
    let mut map = TestMap::new();
    map.insert(1, 10);
    map.insert(2, 10);
    map.insert(1, 20);
    let values: Vec<usize> = map.get(1).unwrap().into_iter().copied().collect();
    assert_eq!(values, vec![10, 20]);
    let keys: Vec<usize> = map.get_value(10).unwrap().into_iter().copied().collect();
    assert_eq!(keys, vec![1, 2]);
    let keys: Vec<usize> = map.get_value(20).unwrap().into_iter().copied().collect();
    assert_eq!(keys, vec![1]);

    map.remove(1, 10);
    let values: Vec<usize> = map.get(1).unwrap().into_iter().copied().collect();
    assert_eq!(values, vec![20]);
    let keys: Vec<usize> = map.get_value(10).unwrap().into_iter().copied().collect();
    assert_eq!(keys, vec![2]);
}

#[test]
fn map_remove_of_unrelated_pair_changes_nothing() {
    let mut map = TestMap::new();
    map.insert(1, 10);
    map.remove(1, 11);
    map.remove(2, 10);
    assert_eq!(*map.get(1).unwrap()[0], 10);
    assert_eq!(*map.get_value(10).unwrap()[0], 1);
}

#[test]
fn map_remove_then_insert_relates_again() {
    let mut map = TestMap::new();
    map.insert(1, 10);
    map.remove(1, 10);
    assert_eq!(map.get(1).unwrap().len(), 0);
    assert_eq!(map.get_value(10).unwrap().len(), 0);
    map.insert(1, 10);
    assert_eq!(*map.get(1).unwrap()[0], 10);
    assert_eq!(*map.get_value(10).unwrap()[0], 1);
}

#[test]
fn map_existing_key_keeps_its_item() {
    let mut map = TestMap::new();
    map.insert(1, 10);
    let mut keys = map.get_value_mut(10).unwrap();
    assert_eq!(keys.len(), 1);
    assert_eq!(keys.get(0), Some(1));
    assert_eq!(keys.get(1), None);
    assert!(keys.set(0, 7));
    assert!(!keys.set(1, 8));
    drop(keys);
    // The key id 1 keeps the item 7 it now has; insert does not store 1 again.
    map.insert(1, 20);
    assert_eq!(*map.get_value(20).unwrap()[0], 7);
}

#[test]
fn map_shared_value_write_is_seen_by_every_key() {
    let mut map = TestMap::default();
    map.insert(1, 10);
    map.insert(2, 10);
    let mut values = map.get_by_id_mut(1).unwrap();
    values.set(0, 99);
    drop(values);
    assert_eq!(*map.get(2).unwrap()[0], 99);
}

#[test]
fn map_access_built_by_hand_is_harmless() {
    let mut map = TestMap::new();
    map.insert(1, 10);
    let mut access = ItemsMut { map: &mut map, handles: vec![0, 12345], side: Side::Values };
    assert_eq!(access.get(0), None);
    assert!(!access.set(1, 3));
    assert!(!access.set(5, 3));
    drop(access);
    assert_eq!(*map.get(1).unwrap()[0], 10);
}

#[test]
fn map_room_query() {
    let mut map = TestMap::new();
    assert!(map.has_room_for(1, 2));
    map.insert(1, 2);
    assert!(map.has_room_for(1, 2));
}
